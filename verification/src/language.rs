//! Languages, recognised by file name and extension, and the per-language line
//! totals of one commit.
use vstd::prelude::*;
use vstd::utf8::*;
use crate::text::bytes_eq_text;

verus! {

/// A language that a tracked text file is counted under. The variants are in
/// the order their ordinals give (`Language::index`).
#[derive(Clone, Copy, Debug, PartialEq, Eq, PartialOrd, Ord, Hash)]
pub enum Language {
    C,
    Cpp,
    CSharp,
    Css,
    Dart,
    Dockerfile,
    Elixir,
    Go,
    Haskell,
    Html,
    Java,
    JavaScript,
    Json,
    Julia,
    Kotlin,
    Lua,
    Makefile,
    Markdown,
    Nix,
    ObjectiveC,
    Other,
    Perl,
    Php,
    Python,
    R,
    Ruby,
    Rust,
    Scala,
    Shell,
    Sql,
    Swift,
    Toml,
    TypeScript,
    Vue,
    Xml,
    Yaml,
}

/// The number of languages.
pub const LANGUAGE_COUNT: usize = 36;

/// The ordinal of a language, in declaration order.
pub open spec fn language_index(l: Language) -> nat {
    match l {
        Language::C => 0,
        Language::Cpp => 1,
        Language::CSharp => 2,
        Language::Css => 3,
        Language::Dart => 4,
        Language::Dockerfile => 5,
        Language::Elixir => 6,
        Language::Go => 7,
        Language::Haskell => 8,
        Language::Html => 9,
        Language::Java => 10,
        Language::JavaScript => 11,
        Language::Json => 12,
        Language::Julia => 13,
        Language::Kotlin => 14,
        Language::Lua => 15,
        Language::Makefile => 16,
        Language::Markdown => 17,
        Language::Nix => 18,
        Language::ObjectiveC => 19,
        Language::Other => 20,
        Language::Perl => 21,
        Language::Php => 22,
        Language::Python => 23,
        Language::R => 24,
        Language::Ruby => 25,
        Language::Rust => 26,
        Language::Scala => 27,
        Language::Shell => 28,
        Language::Sql => 29,
        Language::Swift => 30,
        Language::Toml => 31,
        Language::TypeScript => 32,
        Language::Vue => 33,
        Language::Xml => 34,
        Language::Yaml => 35,
    }
}

/// The language with the given ordinal.
pub open spec fn language_at(i: nat) -> Language {
    if i == 0 {
        Language::C
    } else if i == 1 {
        Language::Cpp
    } else if i == 2 {
        Language::CSharp
    } else if i == 3 {
        Language::Css
    } else if i == 4 {
        Language::Dart
    } else if i == 5 {
        Language::Dockerfile
    } else if i == 6 {
        Language::Elixir
    } else if i == 7 {
        Language::Go
    } else if i == 8 {
        Language::Haskell
    } else if i == 9 {
        Language::Html
    } else if i == 10 {
        Language::Java
    } else if i == 11 {
        Language::JavaScript
    } else if i == 12 {
        Language::Json
    } else if i == 13 {
        Language::Julia
    } else if i == 14 {
        Language::Kotlin
    } else if i == 15 {
        Language::Lua
    } else if i == 16 {
        Language::Makefile
    } else if i == 17 {
        Language::Markdown
    } else if i == 18 {
        Language::Nix
    } else if i == 19 {
        Language::ObjectiveC
    } else if i == 20 {
        Language::Other
    } else if i == 21 {
        Language::Perl
    } else if i == 22 {
        Language::Php
    } else if i == 23 {
        Language::Python
    } else if i == 24 {
        Language::R
    } else if i == 25 {
        Language::Ruby
    } else if i == 26 {
        Language::Rust
    } else if i == 27 {
        Language::Scala
    } else if i == 28 {
        Language::Shell
    } else if i == 29 {
        Language::Sql
    } else if i == 30 {
        Language::Swift
    } else if i == 31 {
        Language::Toml
    } else if i == 32 {
        Language::TypeScript
    } else if i == 33 {
        Language::Vue
    } else if i == 34 {
        Language::Xml
    } else {
        Language::Yaml
    }
}

/// The display name of a language.
pub open spec fn language_name(l: Language) -> Seq<char> {
    match l {
        Language::C => "C"@,
        Language::Cpp => "C++"@,
        Language::CSharp => "C#"@,
        Language::Css => "CSS"@,
        Language::Dart => "Dart"@,
        Language::Dockerfile => "Dockerfile"@,
        Language::Elixir => "Elixir"@,
        Language::Go => "Go"@,
        Language::Haskell => "Haskell"@,
        Language::Html => "HTML"@,
        Language::Java => "Java"@,
        Language::JavaScript => "JavaScript"@,
        Language::Json => "JSON"@,
        Language::Julia => "Julia"@,
        Language::Kotlin => "Kotlin"@,
        Language::Lua => "Lua"@,
        Language::Makefile => "Makefile"@,
        Language::Markdown => "Markdown"@,
        Language::Nix => "Nix"@,
        Language::ObjectiveC => "Objective-C"@,
        Language::Other => "Other"@,
        Language::Perl => "Perl"@,
        Language::Php => "PHP"@,
        Language::Python => "Python"@,
        Language::R => "R"@,
        Language::Ruby => "Ruby"@,
        Language::Rust => "Rust"@,
        Language::Scala => "Scala"@,
        Language::Shell => "Shell"@,
        Language::Sql => "SQL"@,
        Language::Swift => "Swift"@,
        Language::Toml => "TOML"@,
        Language::TypeScript => "TypeScript"@,
        Language::Vue => "Vue"@,
        Language::Xml => "XML"@,
        Language::Yaml => "YAML"@,
    }
}

pub proof fn lemma_language_index(l: Language)
    ensures
        language_index(l) < LANGUAGE_COUNT,
        language_at(language_index(l)) == l,
{
}

pub proof fn lemma_language_at(i: nat)
    requires
        i < LANGUAGE_COUNT,
    ensures
        language_index(language_at(i)) == i,
{
}

impl Language {
    /// The ordinal of this language.
    pub fn index(self) -> (i: usize)
        ensures
            i == language_index(self),
            i < LANGUAGE_COUNT,
    {
        match self {
            Language::C => 0,
            Language::Cpp => 1,
            Language::CSharp => 2,
            Language::Css => 3,
            Language::Dart => 4,
            Language::Dockerfile => 5,
            Language::Elixir => 6,
            Language::Go => 7,
            Language::Haskell => 8,
            Language::Html => 9,
            Language::Java => 10,
            Language::JavaScript => 11,
            Language::Json => 12,
            Language::Julia => 13,
            Language::Kotlin => 14,
            Language::Lua => 15,
            Language::Makefile => 16,
            Language::Markdown => 17,
            Language::Nix => 18,
            Language::ObjectiveC => 19,
            Language::Other => 20,
            Language::Perl => 21,
            Language::Php => 22,
            Language::Python => 23,
            Language::R => 24,
            Language::Ruby => 25,
            Language::Rust => 26,
            Language::Scala => 27,
            Language::Shell => 28,
            Language::Sql => 29,
            Language::Swift => 30,
            Language::Toml => 31,
            Language::TypeScript => 32,
            Language::Vue => 33,
            Language::Xml => 34,
            Language::Yaml => 35,
        }
    }

    /// The language with ordinal `i`.
    pub fn from_index(i: usize) -> (l: Language)
        requires
            i < LANGUAGE_COUNT,
        ensures
            l == language_at(i as nat),
            language_index(l) == i,
    {
        if i == 0 {
            Language::C
        } else if i == 1 {
            Language::Cpp
        } else if i == 2 {
            Language::CSharp
        } else if i == 3 {
            Language::Css
        } else if i == 4 {
            Language::Dart
        } else if i == 5 {
            Language::Dockerfile
        } else if i == 6 {
            Language::Elixir
        } else if i == 7 {
            Language::Go
        } else if i == 8 {
            Language::Haskell
        } else if i == 9 {
            Language::Html
        } else if i == 10 {
            Language::Java
        } else if i == 11 {
            Language::JavaScript
        } else if i == 12 {
            Language::Json
        } else if i == 13 {
            Language::Julia
        } else if i == 14 {
            Language::Kotlin
        } else if i == 15 {
            Language::Lua
        } else if i == 16 {
            Language::Makefile
        } else if i == 17 {
            Language::Markdown
        } else if i == 18 {
            Language::Nix
        } else if i == 19 {
            Language::ObjectiveC
        } else if i == 20 {
            Language::Other
        } else if i == 21 {
            Language::Perl
        } else if i == 22 {
            Language::Php
        } else if i == 23 {
            Language::Python
        } else if i == 24 {
            Language::R
        } else if i == 25 {
            Language::Ruby
        } else if i == 26 {
            Language::Rust
        } else if i == 27 {
            Language::Scala
        } else if i == 28 {
            Language::Shell
        } else if i == 29 {
            Language::Sql
        } else if i == 30 {
            Language::Swift
        } else if i == 31 {
            Language::Toml
        } else if i == 32 {
            Language::TypeScript
        } else if i == 33 {
            Language::Vue
        } else if i == 34 {
            Language::Xml
        } else {
            Language::Yaml
        }
    }

    /// The display name of this language.
    pub fn name(self) -> (name: &'static str)
        ensures
            name@ == language_name(self),
    {
        match self {
            Language::C => "C",
            Language::Cpp => "C++",
            Language::CSharp => "C#",
            Language::Css => "CSS",
            Language::Dart => "Dart",
            Language::Dockerfile => "Dockerfile",
            Language::Elixir => "Elixir",
            Language::Go => "Go",
            Language::Haskell => "Haskell",
            Language::Html => "HTML",
            Language::Java => "Java",
            Language::JavaScript => "JavaScript",
            Language::Json => "JSON",
            Language::Julia => "Julia",
            Language::Kotlin => "Kotlin",
            Language::Lua => "Lua",
            Language::Makefile => "Makefile",
            Language::Markdown => "Markdown",
            Language::Nix => "Nix",
            Language::ObjectiveC => "Objective-C",
            Language::Other => "Other",
            Language::Perl => "Perl",
            Language::Php => "PHP",
            Language::Python => "Python",
            Language::R => "R",
            Language::Ruby => "Ruby",
            Language::Rust => "Rust",
            Language::Scala => "Scala",
            Language::Shell => "Shell",
            Language::Sql => "SQL",
            Language::Swift => "Swift",
            Language::Toml => "TOML",
            Language::TypeScript => "TypeScript",
            Language::Vue => "Vue",
            Language::Xml => "XML",
            Language::Yaml => "YAML",
        }
    }
}

// ------------------------------------------------------------------------
// Classification of paths
// ------------------------------------------------------------------------

/// The part of `s` after its last `b`, if `b` occurs in it.
pub open spec fn after_last(s: Seq<u8>, b: u8) -> Option<Seq<u8>>
    decreases s.len(),
{
    if s.len() == 0 {
        None
    } else if s.last() == b {
        Some(Seq::empty())
    } else {
        match after_last(s.drop_last(), b) {
            Some(rest) => Some(rest.push(s.last())),
            None => None,
        }
    }
}

/// The last component of a `/`-separated path.
pub open spec fn file_name(path: Seq<u8>) -> Seq<u8> {
    match after_last(path, 0x2Fu8) {
        Some(name) => name,
        None => path,
    }
}

/// ASCII lower case of one byte.
pub open spec fn lower_byte(b: u8) -> u8 {
    if 0x41 <= b <= 0x5A {
        (b + 32) as u8
    } else {
        b
    }
}

/// ASCII lower case of a byte string.
pub open spec fn ascii_lowercase(s: Seq<u8>) -> Seq<u8> {
    s.map_values(|b: u8| lower_byte(b))
}

/// Whether the bytes are those of the text `lit`.
pub open spec fn is_text(s: Seq<u8>, lit: &str) -> bool {
    s == encode_utf8(lit@)
}

/// The language of a (lower-case) file extension.
pub open spec fn extension_language(e: Seq<u8>) -> Language {
    if is_text(e, "c") || is_text(e, "h") {
        Language::C
    } else if is_text(e, "cc") || is_text(e, "cpp") || is_text(e, "cxx") || is_text(e, "hh") || is_text(e, "hpp") || is_text(e, "hxx") {
        Language::Cpp
    } else if is_text(e, "cs") {
        Language::CSharp
    } else if is_text(e, "css") || is_text(e, "scss") || is_text(e, "sass") || is_text(e, "less") {
        Language::Css
    } else if is_text(e, "dart") {
        Language::Dart
    } else if is_text(e, "ex") || is_text(e, "exs") {
        Language::Elixir
    } else if is_text(e, "go") {
        Language::Go
    } else if is_text(e, "hs") || is_text(e, "lhs") {
        Language::Haskell
    } else if is_text(e, "htm") || is_text(e, "html") {
        Language::Html
    } else if is_text(e, "java") {
        Language::Java
    } else if is_text(e, "js") || is_text(e, "jsx") || is_text(e, "mjs") || is_text(e, "cjs") {
        Language::JavaScript
    } else if is_text(e, "json") {
        Language::Json
    } else if is_text(e, "jl") {
        Language::Julia
    } else if is_text(e, "kt") || is_text(e, "kts") {
        Language::Kotlin
    } else if is_text(e, "lua") {
        Language::Lua
    } else if is_text(e, "md") || is_text(e, "markdown") {
        Language::Markdown
    } else if is_text(e, "nix") {
        Language::Nix
    } else if is_text(e, "m") || is_text(e, "mm") {
        Language::ObjectiveC
    } else if is_text(e, "pl") || is_text(e, "pm") {
        Language::Perl
    } else if is_text(e, "php") {
        Language::Php
    } else if is_text(e, "py") || is_text(e, "pyw") {
        Language::Python
    } else if is_text(e, "r") {
        Language::R
    } else if is_text(e, "rb") {
        Language::Ruby
    } else if is_text(e, "rs") {
        Language::Rust
    } else if is_text(e, "scala") || is_text(e, "sc") {
        Language::Scala
    } else if is_text(e, "sh") || is_text(e, "bash") || is_text(e, "zsh") || is_text(e, "fish") {
        Language::Shell
    } else if is_text(e, "sql") {
        Language::Sql
    } else if is_text(e, "swift") {
        Language::Swift
    } else if is_text(e, "toml") {
        Language::Toml
    } else if is_text(e, "ts") || is_text(e, "tsx") || is_text(e, "mts") || is_text(e, "cts") {
        Language::TypeScript
    } else if is_text(e, "vue") {
        Language::Vue
    } else if is_text(e, "xml") || is_text(e, "svg") {
        Language::Xml
    } else if is_text(e, "yaml") || is_text(e, "yml") {
        Language::Yaml
    } else {
        Language::Other
    }
}

/// The language of a path: special file names first, then the extension after
/// the last dot of the file name, compared without regard to ASCII case.
pub open spec fn path_language(path: Seq<u8>) -> Language {
    let lower = ascii_lowercase(file_name(path));
    if is_text(lower, "dockerfile") || is_text(lower, "containerfile") {
        Language::Dockerfile
    } else if is_text(lower, "makefile") || is_text(lower, "gnumakefile") {
        Language::Makefile
    } else {
        match after_last(lower, 0x2Eu8) {
            Some(extension) => extension_language(extension),
            None => Language::Other,
        }
    }
}

/// `after_last` finds the part after the last occurrence.
proof fn lemma_after_last(s: Seq<u8>, b: u8, j: int)
    requires
        -1 <= j < s.len(),
        j >= 0 ==> s[j] == b,
        forall|k: int| j < k < s.len() ==> s[k] != b,
    ensures
        j >= 0 ==> after_last(s, b) == Some(s.subrange(j + 1, s.len() as int)),
        j < 0 ==> after_last(s, b) is None,
    decreases s.len(),
{
    if s.len() > 0 && j < s.len() - 1 {
        lemma_after_last(s.drop_last(), b, j);
        if j >= 0 {
            assert(s.drop_last().subrange(j + 1, s.len() - 1).push(s.last()) =~= s.subrange(
                j + 1,
                s.len() as int,
            ));
        }
    } else if s.len() > 0 {
        assert(s.subrange(j + 1, s.len() as int) =~= Seq::<u8>::empty());
    }
}

/// The index just past the last `b` in `s`, or `None`.
pub(crate) fn find_after_last(s: &[u8], b: u8) -> (r: Option<usize>)
    ensures
        match r {
            Some(start) => start <= s.len() && after_last(s@, b) == Some(
                s@.subrange(start as int, s.len() as int),
            ),
            None => after_last(s@, b) is None,
        },
{
    let mut i = s.len();
    while i > 0
        invariant
            i <= s.len(),
            forall|k: int| i <= k < s.len() ==> s@[k] != b,
        decreases i,
    {
        if s[i - 1] == b {
            proof {
                lemma_after_last(s@, b, i - 1);
            }
            return Some(i);
        }
        i -= 1;
    }
    proof {
        lemma_after_last(s@, b, -1);
    }
    None
}

/// The language of a (lower-case) extension.
fn classify_extension(e: &[u8]) -> (l: Language)
    ensures
        l == extension_language(e@),
{
    if bytes_eq_text(e, "c") || bytes_eq_text(e, "h") {
        return Language::C;
    }
    if bytes_eq_text(e, "cc") || bytes_eq_text(e, "cpp") || bytes_eq_text(e, "cxx") || bytes_eq_text(e, "hh") || bytes_eq_text(e, "hpp") || bytes_eq_text(e, "hxx") {
        return Language::Cpp;
    }
    if bytes_eq_text(e, "cs") {
        return Language::CSharp;
    }
    if bytes_eq_text(e, "css") || bytes_eq_text(e, "scss") || bytes_eq_text(e, "sass") || bytes_eq_text(e, "less") {
        return Language::Css;
    }
    if bytes_eq_text(e, "dart") {
        return Language::Dart;
    }
    if bytes_eq_text(e, "ex") || bytes_eq_text(e, "exs") {
        return Language::Elixir;
    }
    if bytes_eq_text(e, "go") {
        return Language::Go;
    }
    if bytes_eq_text(e, "hs") || bytes_eq_text(e, "lhs") {
        return Language::Haskell;
    }
    if bytes_eq_text(e, "htm") || bytes_eq_text(e, "html") {
        return Language::Html;
    }
    if bytes_eq_text(e, "java") {
        return Language::Java;
    }
    if bytes_eq_text(e, "js") || bytes_eq_text(e, "jsx") || bytes_eq_text(e, "mjs") || bytes_eq_text(e, "cjs") {
        return Language::JavaScript;
    }
    if bytes_eq_text(e, "json") {
        return Language::Json;
    }
    if bytes_eq_text(e, "jl") {
        return Language::Julia;
    }
    if bytes_eq_text(e, "kt") || bytes_eq_text(e, "kts") {
        return Language::Kotlin;
    }
    if bytes_eq_text(e, "lua") {
        return Language::Lua;
    }
    if bytes_eq_text(e, "md") || bytes_eq_text(e, "markdown") {
        return Language::Markdown;
    }
    if bytes_eq_text(e, "nix") {
        return Language::Nix;
    }
    if bytes_eq_text(e, "m") || bytes_eq_text(e, "mm") {
        return Language::ObjectiveC;
    }
    if bytes_eq_text(e, "pl") || bytes_eq_text(e, "pm") {
        return Language::Perl;
    }
    if bytes_eq_text(e, "php") {
        return Language::Php;
    }
    if bytes_eq_text(e, "py") || bytes_eq_text(e, "pyw") {
        return Language::Python;
    }
    if bytes_eq_text(e, "r") {
        return Language::R;
    }
    if bytes_eq_text(e, "rb") {
        return Language::Ruby;
    }
    if bytes_eq_text(e, "rs") {
        return Language::Rust;
    }
    if bytes_eq_text(e, "scala") || bytes_eq_text(e, "sc") {
        return Language::Scala;
    }
    if bytes_eq_text(e, "sh") || bytes_eq_text(e, "bash") || bytes_eq_text(e, "zsh") || bytes_eq_text(e, "fish") {
        return Language::Shell;
    }
    if bytes_eq_text(e, "sql") {
        return Language::Sql;
    }
    if bytes_eq_text(e, "swift") {
        return Language::Swift;
    }
    if bytes_eq_text(e, "toml") {
        return Language::Toml;
    }
    if bytes_eq_text(e, "ts") || bytes_eq_text(e, "tsx") || bytes_eq_text(e, "mts") || bytes_eq_text(e, "cts") {
        return Language::TypeScript;
    }
    if bytes_eq_text(e, "vue") {
        return Language::Vue;
    }
    if bytes_eq_text(e, "xml") || bytes_eq_text(e, "svg") {
        return Language::Xml;
    }
    if bytes_eq_text(e, "yaml") || bytes_eq_text(e, "yml") {
        return Language::Yaml;
    }
    Language::Other
}

/// The language that a path is counted under: `Dockerfile`/`Containerfile` and
/// `Makefile`/`GNUmakefile` by name, everything else by the extension after the
/// last dot, without regard to ASCII case; unknown or missing extensions give
/// `Other`.
pub fn classify_path(path: &[u8]) -> (l: Language)
    ensures
        l == path_language(path@),
{
    let start = match find_after_last(path, 0x2F) {
        Some(start) => start,
        None => 0,
    };
    let ghost name = file_name(path@);
    assert(name =~= path@.subrange(start as int, path@.len() as int));
    let mut lower: Vec<u8> = Vec::new();
    let mut i = start;
    while i < path.len()
        invariant
            start <= i <= path.len(),
            name == path@.subrange(start as int, path@.len() as int),
            lower@ == ascii_lowercase(name.take(i - start)),
        decreases path.len() - i,
    {
        let b = path[i];
        let lb = if 0x41 <= b && b <= 0x5A {
            b + 32
        } else {
            b
        };
        lower.push(lb);
        assert(ascii_lowercase(name.take(i + 1 - start)) =~= ascii_lowercase(
            name.take(i - start),
        ).push(lower_byte(b)));
        i += 1;
    }
    assert(name.take(path.len() - start) =~= name);
    let lower_slice = lower.as_slice();
    if bytes_eq_text(lower_slice, "dockerfile") || bytes_eq_text(lower_slice, "containerfile") {
        return Language::Dockerfile;
    }
    if bytes_eq_text(lower_slice, "makefile") || bytes_eq_text(lower_slice, "gnumakefile") {
        return Language::Makefile;
    }
    match find_after_last(lower_slice, 0x2E) {
        Some(dot) => classify_extension(&lower_slice[dot..lower_slice.len()]),
        None => Language::Other,
    }
}

} // verus!

verus! {

// ------------------------------------------------------------------------
// Per-language line totals
// ------------------------------------------------------------------------

/// Line totals by language for one commit: a finite map from the languages
/// present to their totals. A language can be present with a total of zero.
pub struct LanguageCounts {
    entries: Vec<Option<u64>>,
}

impl LanguageCounts {
    #[verifier::type_invariant]
    spec fn well_formed(self) -> bool {
        self.entries.len() == LANGUAGE_COUNT
    }
}

impl View for LanguageCounts {
    type V = Map<Language, u64>;

    closed spec fn view(&self) -> Map<Language, u64> {
        Map::new(
            |l: Language| self.entries@[language_index(l) as int] is Some,
            |l: Language| self.entries@[language_index(l) as int]->0,
        )
    }
}

impl LanguageCounts {
    /// No language present.
    pub fn new() -> (counts: Self)
        ensures
            counts@ == Map::<Language, u64>::empty(),
    {
        let mut entries: Vec<Option<u64>> = Vec::new();
        let mut i: usize = 0;
        while i < LANGUAGE_COUNT
            invariant
                i <= LANGUAGE_COUNT,
                entries.len() == i,
                forall|j: int| 0 <= j < i ==> entries@[j] is None,
            decreases LANGUAGE_COUNT - i,
        {
            entries.push(None);
            i += 1;
        }
        let counts = LanguageCounts { entries };
        assert(counts@ =~= Map::<Language, u64>::empty());
        counts
    }

    /// The total of `language`, if it is present.
    pub fn get(&self, language: Language) -> (total: Option<u64>)
        ensures
            total == (if self@.contains_key(language) {
                Some(self@[language])
            } else {
                None
            }),
    {
        proof {
            use_type_invariant(self);
        }
        self.entries[language.index()]
    }

    /// Sets the total of `language`.
    pub fn insert(&mut self, language: Language, total: u64)
        ensures
            final(self)@ == old(self)@.insert(language, total),
    {
        proof {
            use_type_invariant(&*self);
        }
        let i = language.index();
        let mut entries = self.entries.clone();
        assert(entries@ =~= self.entries@);
        entries.set(i, Some(total));
        *self = LanguageCounts { entries };
        proof {
            assert forall|l: Language| language_index(l) == i implies l == language by {
                lemma_language_index(l);
                lemma_language_index(language);
            }
        }
        assert(self@ =~= old(self)@.insert(language, total));
    }

    /// Removes `language`.
    pub fn remove(&mut self, language: Language)
        ensures
            final(self)@ == old(self)@.remove(language),
    {
        proof {
            use_type_invariant(&*self);
        }
        let i = language.index();
        let mut entries = self.entries.clone();
        assert(entries@ =~= self.entries@);
        entries.set(i, None);
        *self = LanguageCounts { entries };
        proof {
            assert forall|l: Language| language_index(l) == i implies l == language by {
                lemma_language_index(l);
                lemma_language_index(language);
            }
        }
        assert(self@ =~= old(self)@.remove(language));
    }
}

impl Clone for LanguageCounts {
    fn clone(&self) -> (copy: Self)
        ensures
            copy@ == self@,
    {
        proof {
            use_type_invariant(self);
        }
        let copy = LanguageCounts { entries: self.entries.clone() };
        assert(copy.entries@ =~= self.entries@);
        assert(copy@ =~= self@);
        copy
    }
}

/// Lower-casing commutes with taking the part after the last `/`.
proof fn lemma_after_last_slash_lower(s: Seq<u8>)
    ensures
        after_last(ascii_lowercase(s), 0x2Fu8) == match after_last(s, 0x2Fu8) {
            Some(rest) => Some(ascii_lowercase(rest)),
            None => None,
        },
    decreases s.len(),
{
    if s.len() > 0 {
        lemma_after_last_slash_lower(s.drop_last());
        assert(ascii_lowercase(s).drop_last() =~= ascii_lowercase(s.drop_last()));
        assert(ascii_lowercase(s).last() == lower_byte(s.last()));
        match after_last(s.drop_last(), 0x2Fu8) {
            Some(rest) => {
                assert(ascii_lowercase(rest.push(s.last())) =~= ascii_lowercase(rest).push(
                    lower_byte(s.last()),
                ));
            },
            None => {},
        }
        assert(ascii_lowercase(Seq::<u8>::empty()) =~= Seq::<u8>::empty());
    }
}

/// Language detection ignores ASCII case: paths that differ only in the case
/// of their letters are counted under the same language.
pub proof fn law_language_ignores_case(p: Seq<u8>, q: Seq<u8>)
    requires
        ascii_lowercase(p) == ascii_lowercase(q),
    ensures
        path_language(p) == path_language(q),
{
    lemma_after_last_slash_lower(p);
    lemma_after_last_slash_lower(q);
    assert(ascii_lowercase(file_name(p)) == file_name(ascii_lowercase(p)));
    assert(ascii_lowercase(file_name(q)) == file_name(ascii_lowercase(q)));
}

/// A directory never changes the language: a path is counted under the
/// language of its file name alone. And a file name without a dot that is none
/// of the special names (`Dockerfile`, `Containerfile`, `Makefile`,
/// `GNUmakefile`, in any case) is `Other`.
pub proof fn law_language_by_file_name(dir: Seq<u8>, name: Seq<u8>)
    requires
        forall|i: int| 0 <= i < name.len() ==> name[i] != 0x2Fu8,
    ensures
        path_language(dir + seq![0x2Fu8] + name) == path_language(name),
        (forall|i: int| 0 <= i < name.len() ==> name[i] != 0x2Eu8) && !is_text(ascii_lowercase(name), "dockerfile")
            && !is_text(ascii_lowercase(name), "containerfile") && !is_text(ascii_lowercase(name), "makefile")
            && !is_text(ascii_lowercase(name), "gnumakefile") ==> path_language(name) == Language::Other,
{
    let p = dir + seq![0x2Fu8] + name;
    let j = dir.len() as int;
    assert(p[j] == 0x2Fu8);
    assert forall|k: int| j < k < p.len() implies p[k] != 0x2Fu8 by {
        assert(p[k] == name[k - j - 1]);
    }
    lemma_after_last(p, 0x2Fu8, j);
    assert(p.subrange(j + 1, p.len() as int) =~= name);
    lemma_after_last(name, 0x2Fu8, -1);
    let lower = ascii_lowercase(name);
    if forall|i: int| 0 <= i < name.len() ==> name[i] != 0x2Eu8 {
        assert forall|k: int| -1 < k < lower.len() implies lower[k] != 0x2Eu8 by {
            assert(lower[k] == lower_byte(name[k]));
        }
        lemma_after_last(lower, 0x2Eu8, -1);
    }
}


/// The bytes of the path `stem.ext`.
pub open spec fn dotted_path(stem: Seq<u8>, ext: &str) -> Seq<u8> {
    stem + seq![0x2Eu8] + encode_utf8(ext@)
}

/// Whether every character is a lower-case ASCII letter.
pub open spec fn lowercase_letters(chars: Seq<char>) -> bool {
    forall|i: int| 0 <= i < chars.len() ==> 'a' <= #[trigger] chars[i] <= 'z'
}

/// Appending bytes that hold no `b` keeps the part after the last `b`, extended.
proof fn lemma_after_last_append(s: Seq<u8>, t: Seq<u8>, b: u8)
    requires
        forall|i: int| 0 <= i < t.len() ==> t[i] != b,
    ensures
        after_last(s + t, b) == match after_last(s, b) {
            Some(rest) => Some(rest + t),
            None => None,
        },
    decreases t.len(),
{
    if t.len() == 0 {
        assert(s + t =~= s);
        match after_last(s, b) {
            Some(rest) => assert(rest + t =~= rest),
            None => {},
        }
    } else {
        lemma_after_last_append(s, t.drop_last(), b);
        assert((s + t).drop_last() =~= s + t.drop_last());
        assert((s + t).last() == t.last());
        match after_last(s, b) {
            Some(rest) => assert((rest + t.drop_last()).push(t.last()) =~= rest + t),
            None => {},
        }
    }
}

/// Lower-casing distributes over concatenation.
proof fn lemma_lowercase_append(a: Seq<u8>, b: Seq<u8>)
    ensures
        ascii_lowercase(a + b) == ascii_lowercase(a) + ascii_lowercase(b),
{
    assert(ascii_lowercase(a + b) =~= ascii_lowercase(a) + ascii_lowercase(b));
}

/// The encoding of a word of lower-case letters: one byte per letter, each a
/// lower-case letter.
proof fn lemma_lowercase_word(word: &str)
    requires
        lowercase_letters(word@),
    ensures
        encode_utf8(word@).len() == word@.len(),
        forall|i: int|
            0 <= i < word@.len() ==> 0x61 <= #[trigger] encode_utf8(word@)[i] <= 0x7A,
{
    assert(is_ascii_chars(word@));
    is_ascii_chars_encode_utf8(word@);
    assert forall|i: int| 0 <= i < word@.len() implies 0x61 <= #[trigger] encode_utf8(word@)[i]
        <= 0x7A by {
        assert(word@[i] as u8 == encode_utf8(word@)[i]);
    }
}

/// A path `stem.ext` whose extension is a word of lower-case letters is
/// classified by that extension alone.
proof fn lemma_extension_path(stem: Seq<u8>, ext: &str)
    requires
        lowercase_letters(ext@),
    ensures
        path_language(dotted_path(stem, ext)) == extension_language(encode_utf8(ext@)),
{
    let e = encode_utf8(ext@);
    lemma_lowercase_word(ext);
    let tail = seq![0x2Eu8] + e;
    assert forall|i: int| 0 <= i < tail.len() implies tail[i] != 0x2Fu8 by {
        if i > 0 {
            assert(tail[i] == e[i - 1]);
        }
    }
    assert(dotted_path(stem, ext) =~= stem + tail);
    lemma_after_last_append(stem, tail, 0x2Fu8);
    let name = file_name(dotted_path(stem, ext));
    let base = file_name(stem);
    assert(name == base + tail);
    lemma_lowercase_append(base, tail);
    assert(ascii_lowercase(tail) =~= tail) by {
        assert forall|i: int| 0 <= i < tail.len() implies ascii_lowercase(tail)[i] == tail[i] by {
            if i > 0 {
                assert(tail[i] == e[i - 1]);
            }
        }
    }
    let lower = ascii_lowercase(name);
    let lb = ascii_lowercase(base);
    assert(lower == lb + tail);
    let j = lb.len() as int;
    assert(lower[j] == 0x2Eu8);
    assert forall|k: int| j < k < lower.len() implies lower[k] != 0x2Eu8 by {
        assert(lower[k] == e[k - j - 1]);
    }
    lemma_after_last(lower, 0x2Eu8, j);
    assert(lower.subrange(j + 1, lower.len() as int) =~= e);
    reveal_strlit("dockerfile");
    reveal_strlit("containerfile");
    reveal_strlit("makefile");
    reveal_strlit("gnumakefile");
    lemma_lowercase_word("dockerfile");
    lemma_lowercase_word("containerfile");
    lemma_lowercase_word("makefile");
    lemma_lowercase_word("gnumakefile");
    assert(!is_text(lower, "dockerfile")) by {
        if is_text(lower, "dockerfile") {
            assert(encode_utf8("dockerfile"@)[j] == 0x2Eu8);
        }
    }
    assert(!is_text(lower, "containerfile")) by {
        if is_text(lower, "containerfile") {
            assert(encode_utf8("containerfile"@)[j] == 0x2Eu8);
        }
    }
    assert(!is_text(lower, "makefile")) by {
        if is_text(lower, "makefile") {
            assert(encode_utf8("makefile"@)[j] == 0x2Eu8);
        }
    }
    assert(!is_text(lower, "gnumakefile")) by {
        if is_text(lower, "gnumakefile") {
            assert(encode_utf8("gnumakefile"@)[j] == 0x2Eu8);
        }
    }
}

/// The characters of the extensions in the table.
proof fn lemma_table_words()
    ensures
        "c"@ == seq!['c'],
        "h"@ == seq!['h'],
        "cc"@ == seq!['c', 'c'],
        "cpp"@ == seq!['c', 'p', 'p'],
        "cxx"@ == seq!['c', 'x', 'x'],
        "hh"@ == seq!['h', 'h'],
        "hpp"@ == seq!['h', 'p', 'p'],
        "hxx"@ == seq!['h', 'x', 'x'],
        "cs"@ == seq!['c', 's'],
        "css"@ == seq!['c', 's', 's'],
        "scss"@ == seq!['s', 'c', 's', 's'],
        "sass"@ == seq!['s', 'a', 's', 's'],
        "less"@ == seq!['l', 'e', 's', 's'],
        "dart"@ == seq!['d', 'a', 'r', 't'],
        "ex"@ == seq!['e', 'x'],
        "exs"@ == seq!['e', 'x', 's'],
        "go"@ == seq!['g', 'o'],
        "hs"@ == seq!['h', 's'],
        "lhs"@ == seq!['l', 'h', 's'],
        "htm"@ == seq!['h', 't', 'm'],
        "html"@ == seq!['h', 't', 'm', 'l'],
        "java"@ == seq!['j', 'a', 'v', 'a'],
        "js"@ == seq!['j', 's'],
        "jsx"@ == seq!['j', 's', 'x'],
        "mjs"@ == seq!['m', 'j', 's'],
        "cjs"@ == seq!['c', 'j', 's'],
        "json"@ == seq!['j', 's', 'o', 'n'],
        "jl"@ == seq!['j', 'l'],
        "kt"@ == seq!['k', 't'],
        "kts"@ == seq!['k', 't', 's'],
        "lua"@ == seq!['l', 'u', 'a'],
        "md"@ == seq!['m', 'd'],
        "markdown"@ == seq!['m', 'a', 'r', 'k', 'd', 'o', 'w', 'n'],
        "nix"@ == seq!['n', 'i', 'x'],
        "m"@ == seq!['m'],
        "mm"@ == seq!['m', 'm'],
        "pl"@ == seq!['p', 'l'],
        "pm"@ == seq!['p', 'm'],
        "php"@ == seq!['p', 'h', 'p'],
        "py"@ == seq!['p', 'y'],
        "pyw"@ == seq!['p', 'y', 'w'],
        "r"@ == seq!['r'],
        "rb"@ == seq!['r', 'b'],
        "rs"@ == seq!['r', 's'],
        "scala"@ == seq!['s', 'c', 'a', 'l', 'a'],
        "sc"@ == seq!['s', 'c'],
        "sh"@ == seq!['s', 'h'],
        "bash"@ == seq!['b', 'a', 's', 'h'],
        "zsh"@ == seq!['z', 's', 'h'],
        "fish"@ == seq!['f', 'i', 's', 'h'],
        "sql"@ == seq!['s', 'q', 'l'],
        "swift"@ == seq!['s', 'w', 'i', 'f', 't'],
        "toml"@ == seq!['t', 'o', 'm', 'l'],
        "ts"@ == seq!['t', 's'],
        "tsx"@ == seq!['t', 's', 'x'],
        "mts"@ == seq!['m', 't', 's'],
        "cts"@ == seq!['c', 't', 's'],
        "vue"@ == seq!['v', 'u', 'e'],
        "xml"@ == seq!['x', 'm', 'l'],
        "svg"@ == seq!['s', 'v', 'g'],
        "yaml"@ == seq!['y', 'a', 'm', 'l'],
        "yml"@ == seq!['y', 'm', 'l'],
{
    reveal_strlit("c");
    reveal_strlit("h");
    reveal_strlit("cc");
    reveal_strlit("cpp");
    reveal_strlit("cxx");
    reveal_strlit("hh");
    reveal_strlit("hpp");
    reveal_strlit("hxx");
    reveal_strlit("cs");
    reveal_strlit("css");
    reveal_strlit("scss");
    reveal_strlit("sass");
    reveal_strlit("less");
    reveal_strlit("dart");
    reveal_strlit("ex");
    reveal_strlit("exs");
    reveal_strlit("go");
    reveal_strlit("hs");
    reveal_strlit("lhs");
    reveal_strlit("htm");
    reveal_strlit("html");
    reveal_strlit("java");
    reveal_strlit("js");
    reveal_strlit("jsx");
    reveal_strlit("mjs");
    reveal_strlit("cjs");
    reveal_strlit("json");
    reveal_strlit("jl");
    reveal_strlit("kt");
    reveal_strlit("kts");
    reveal_strlit("lua");
    reveal_strlit("md");
    reveal_strlit("markdown");
    reveal_strlit("nix");
    reveal_strlit("m");
    reveal_strlit("mm");
    reveal_strlit("pl");
    reveal_strlit("pm");
    reveal_strlit("php");
    reveal_strlit("py");
    reveal_strlit("pyw");
    reveal_strlit("r");
    reveal_strlit("rb");
    reveal_strlit("rs");
    reveal_strlit("scala");
    reveal_strlit("sc");
    reveal_strlit("sh");
    reveal_strlit("bash");
    reveal_strlit("zsh");
    reveal_strlit("fish");
    reveal_strlit("sql");
    reveal_strlit("swift");
    reveal_strlit("toml");
    reveal_strlit("ts");
    reveal_strlit("tsx");
    reveal_strlit("mts");
    reveal_strlit("cts");
    reveal_strlit("vue");
    reveal_strlit("xml");
    reveal_strlit("svg");
    reveal_strlit("yaml");
    reveal_strlit("yml");
}

/// The extension table, from C to Css.
#[verifier::spinoff_prover]
#[verifier::rlimit(100)]
proof fn lemma_table_c_to_css(stem: Seq<u8>)
    ensures
        path_language(dotted_path(stem, "c")) == Language::C,
        path_language(dotted_path(stem, "h")) == Language::C,
        path_language(dotted_path(stem, "cc")) == Language::Cpp,
        path_language(dotted_path(stem, "cpp")) == Language::Cpp,
        path_language(dotted_path(stem, "cxx")) == Language::Cpp,
        path_language(dotted_path(stem, "hh")) == Language::Cpp,
        path_language(dotted_path(stem, "hpp")) == Language::Cpp,
        path_language(dotted_path(stem, "hxx")) == Language::Cpp,
        path_language(dotted_path(stem, "cs")) == Language::CSharp,
        path_language(dotted_path(stem, "css")) == Language::Css,
        path_language(dotted_path(stem, "scss")) == Language::Css,
        path_language(dotted_path(stem, "sass")) == Language::Css,
        path_language(dotted_path(stem, "less")) == Language::Css,
{
    broadcast use encode_utf8_decode_utf8;

    lemma_table_words();
    assert(path_language(dotted_path(stem, "c")) == Language::C) by {
        assert(decode_utf8(encode_utf8("c"@)) == "c"@);
        assert("c"@[0] == 'c');
        lemma_extension_path(stem, "c");
    }
    assert(path_language(dotted_path(stem, "h")) == Language::C) by {
        assert(decode_utf8(encode_utf8("h"@)) == "h"@);
        assert("h"@[0] == 'h');
        lemma_extension_path(stem, "h");
    }
    assert(path_language(dotted_path(stem, "cc")) == Language::Cpp) by {
        assert(decode_utf8(encode_utf8("cc"@)) == "cc"@);
        assert("cc"@[0] == 'c' && "cc"@[1] == 'c');
        lemma_extension_path(stem, "cc");
    }
    assert(path_language(dotted_path(stem, "cpp")) == Language::Cpp) by {
        assert(decode_utf8(encode_utf8("cpp"@)) == "cpp"@);
        assert("cpp"@[0] == 'c' && "cpp"@[1] == 'p' && "cpp"@[2] == 'p');
        lemma_extension_path(stem, "cpp");
    }
    assert(path_language(dotted_path(stem, "cxx")) == Language::Cpp) by {
        assert(decode_utf8(encode_utf8("cxx"@)) == "cxx"@);
        assert("cxx"@[0] == 'c' && "cxx"@[1] == 'x' && "cxx"@[2] == 'x');
        lemma_extension_path(stem, "cxx");
    }
    assert(path_language(dotted_path(stem, "hh")) == Language::Cpp) by {
        assert(decode_utf8(encode_utf8("hh"@)) == "hh"@);
        assert("hh"@[0] == 'h' && "hh"@[1] == 'h');
        lemma_extension_path(stem, "hh");
    }
    assert(path_language(dotted_path(stem, "hpp")) == Language::Cpp) by {
        assert(decode_utf8(encode_utf8("hpp"@)) == "hpp"@);
        assert("hpp"@[0] == 'h' && "hpp"@[1] == 'p' && "hpp"@[2] == 'p');
        lemma_extension_path(stem, "hpp");
    }
    assert(path_language(dotted_path(stem, "hxx")) == Language::Cpp) by {
        assert(decode_utf8(encode_utf8("hxx"@)) == "hxx"@);
        assert("hxx"@[0] == 'h' && "hxx"@[1] == 'x' && "hxx"@[2] == 'x');
        lemma_extension_path(stem, "hxx");
    }
    assert(path_language(dotted_path(stem, "cs")) == Language::CSharp) by {
        assert(decode_utf8(encode_utf8("cs"@)) == "cs"@);
        assert("cs"@[0] == 'c' && "cs"@[1] == 's');
        lemma_extension_path(stem, "cs");
    }
    assert(path_language(dotted_path(stem, "css")) == Language::Css) by {
        assert(decode_utf8(encode_utf8("css"@)) == "css"@);
        assert("css"@[0] == 'c' && "css"@[1] == 's' && "css"@[2] == 's');
        lemma_extension_path(stem, "css");
    }
    assert(path_language(dotted_path(stem, "scss")) == Language::Css) by {
        assert(decode_utf8(encode_utf8("scss"@)) == "scss"@);
        assert("scss"@[0] == 's' && "scss"@[1] == 'c' && "scss"@[2] == 's' && "scss"@[3] == 's');
        lemma_extension_path(stem, "scss");
    }
    assert(path_language(dotted_path(stem, "sass")) == Language::Css) by {
        assert(decode_utf8(encode_utf8("sass"@)) == "sass"@);
        assert("sass"@[0] == 's' && "sass"@[1] == 'a' && "sass"@[2] == 's' && "sass"@[3] == 's');
        lemma_extension_path(stem, "sass");
    }
    assert(path_language(dotted_path(stem, "less")) == Language::Css) by {
        assert(decode_utf8(encode_utf8("less"@)) == "less"@);
        assert("less"@[0] == 'l' && "less"@[1] == 'e' && "less"@[2] == 's' && "less"@[3] == 's');
        lemma_extension_path(stem, "less");
    }
}

/// The extension table, from Dart to JavaScript.
#[verifier::spinoff_prover]
#[verifier::rlimit(100)]
proof fn lemma_table_dart_to_javascript(stem: Seq<u8>)
    ensures
        path_language(dotted_path(stem, "dart")) == Language::Dart,
        path_language(dotted_path(stem, "ex")) == Language::Elixir,
        path_language(dotted_path(stem, "exs")) == Language::Elixir,
        path_language(dotted_path(stem, "go")) == Language::Go,
        path_language(dotted_path(stem, "hs")) == Language::Haskell,
        path_language(dotted_path(stem, "lhs")) == Language::Haskell,
        path_language(dotted_path(stem, "htm")) == Language::Html,
        path_language(dotted_path(stem, "html")) == Language::Html,
        path_language(dotted_path(stem, "java")) == Language::Java,
        path_language(dotted_path(stem, "js")) == Language::JavaScript,
        path_language(dotted_path(stem, "jsx")) == Language::JavaScript,
        path_language(dotted_path(stem, "mjs")) == Language::JavaScript,
        path_language(dotted_path(stem, "cjs")) == Language::JavaScript,
{
    broadcast use encode_utf8_decode_utf8;

    lemma_table_words();
    assert(path_language(dotted_path(stem, "dart")) == Language::Dart) by {
        assert(decode_utf8(encode_utf8("dart"@)) == "dart"@);
        assert("dart"@[0] == 'd' && "dart"@[1] == 'a' && "dart"@[2] == 'r' && "dart"@[3] == 't');
        lemma_extension_path(stem, "dart");
    }
    assert(path_language(dotted_path(stem, "ex")) == Language::Elixir) by {
        assert(decode_utf8(encode_utf8("ex"@)) == "ex"@);
        assert("ex"@[0] == 'e' && "ex"@[1] == 'x');
        lemma_extension_path(stem, "ex");
    }
    assert(path_language(dotted_path(stem, "exs")) == Language::Elixir) by {
        assert(decode_utf8(encode_utf8("exs"@)) == "exs"@);
        assert("exs"@[0] == 'e' && "exs"@[1] == 'x' && "exs"@[2] == 's');
        lemma_extension_path(stem, "exs");
    }
    assert(path_language(dotted_path(stem, "go")) == Language::Go) by {
        assert(decode_utf8(encode_utf8("go"@)) == "go"@);
        assert("go"@[0] == 'g' && "go"@[1] == 'o');
        lemma_extension_path(stem, "go");
    }
    assert(path_language(dotted_path(stem, "hs")) == Language::Haskell) by {
        assert(decode_utf8(encode_utf8("hs"@)) == "hs"@);
        assert("hs"@[0] == 'h' && "hs"@[1] == 's');
        lemma_extension_path(stem, "hs");
    }
    assert(path_language(dotted_path(stem, "lhs")) == Language::Haskell) by {
        assert(decode_utf8(encode_utf8("lhs"@)) == "lhs"@);
        assert("lhs"@[0] == 'l' && "lhs"@[1] == 'h' && "lhs"@[2] == 's');
        lemma_extension_path(stem, "lhs");
    }
    assert(path_language(dotted_path(stem, "htm")) == Language::Html) by {
        assert(decode_utf8(encode_utf8("htm"@)) == "htm"@);
        assert("htm"@[0] == 'h' && "htm"@[1] == 't' && "htm"@[2] == 'm');
        lemma_extension_path(stem, "htm");
    }
    assert(path_language(dotted_path(stem, "html")) == Language::Html) by {
        assert(decode_utf8(encode_utf8("html"@)) == "html"@);
        assert("html"@[0] == 'h' && "html"@[1] == 't' && "html"@[2] == 'm' && "html"@[3] == 'l');
        lemma_extension_path(stem, "html");
    }
    assert(path_language(dotted_path(stem, "java")) == Language::Java) by {
        assert(decode_utf8(encode_utf8("java"@)) == "java"@);
        assert("java"@[0] == 'j' && "java"@[1] == 'a' && "java"@[2] == 'v' && "java"@[3] == 'a');
        lemma_extension_path(stem, "java");
    }
    assert(path_language(dotted_path(stem, "js")) == Language::JavaScript) by {
        assert(decode_utf8(encode_utf8("js"@)) == "js"@);
        assert("js"@[0] == 'j' && "js"@[1] == 's');
        lemma_extension_path(stem, "js");
    }
    assert(path_language(dotted_path(stem, "jsx")) == Language::JavaScript) by {
        assert(decode_utf8(encode_utf8("jsx"@)) == "jsx"@);
        assert("jsx"@[0] == 'j' && "jsx"@[1] == 's' && "jsx"@[2] == 'x');
        lemma_extension_path(stem, "jsx");
    }
    assert(path_language(dotted_path(stem, "mjs")) == Language::JavaScript) by {
        assert(decode_utf8(encode_utf8("mjs"@)) == "mjs"@);
        assert("mjs"@[0] == 'm' && "mjs"@[1] == 'j' && "mjs"@[2] == 's');
        lemma_extension_path(stem, "mjs");
    }
    assert(path_language(dotted_path(stem, "cjs")) == Language::JavaScript) by {
        assert(decode_utf8(encode_utf8("cjs"@)) == "cjs"@);
        assert("cjs"@[0] == 'c' && "cjs"@[1] == 'j' && "cjs"@[2] == 's');
        lemma_extension_path(stem, "cjs");
    }
}

/// The extension table, from Json to ObjectiveC.
#[verifier::spinoff_prover]
#[verifier::rlimit(100)]
proof fn lemma_table_json_to_objectivec(stem: Seq<u8>)
    ensures
        path_language(dotted_path(stem, "json")) == Language::Json,
        path_language(dotted_path(stem, "jl")) == Language::Julia,
        path_language(dotted_path(stem, "kt")) == Language::Kotlin,
        path_language(dotted_path(stem, "kts")) == Language::Kotlin,
        path_language(dotted_path(stem, "lua")) == Language::Lua,
        path_language(dotted_path(stem, "md")) == Language::Markdown,
        path_language(dotted_path(stem, "markdown")) == Language::Markdown,
        path_language(dotted_path(stem, "nix")) == Language::Nix,
        path_language(dotted_path(stem, "m")) == Language::ObjectiveC,
        path_language(dotted_path(stem, "mm")) == Language::ObjectiveC,
{
    broadcast use encode_utf8_decode_utf8;

    lemma_table_words();
    assert(path_language(dotted_path(stem, "json")) == Language::Json) by {
        assert(decode_utf8(encode_utf8("json"@)) == "json"@);
        assert("json"@[0] == 'j' && "json"@[1] == 's' && "json"@[2] == 'o' && "json"@[3] == 'n');
        lemma_extension_path(stem, "json");
    }
    assert(path_language(dotted_path(stem, "jl")) == Language::Julia) by {
        assert(decode_utf8(encode_utf8("jl"@)) == "jl"@);
        assert("jl"@[0] == 'j' && "jl"@[1] == 'l');
        lemma_extension_path(stem, "jl");
    }
    assert(path_language(dotted_path(stem, "kt")) == Language::Kotlin) by {
        assert(decode_utf8(encode_utf8("kt"@)) == "kt"@);
        assert("kt"@[0] == 'k' && "kt"@[1] == 't');
        lemma_extension_path(stem, "kt");
    }
    assert(path_language(dotted_path(stem, "kts")) == Language::Kotlin) by {
        assert(decode_utf8(encode_utf8("kts"@)) == "kts"@);
        assert("kts"@[0] == 'k' && "kts"@[1] == 't' && "kts"@[2] == 's');
        lemma_extension_path(stem, "kts");
    }
    assert(path_language(dotted_path(stem, "lua")) == Language::Lua) by {
        assert(decode_utf8(encode_utf8("lua"@)) == "lua"@);
        assert("lua"@[0] == 'l' && "lua"@[1] == 'u' && "lua"@[2] == 'a');
        lemma_extension_path(stem, "lua");
    }
    assert(path_language(dotted_path(stem, "md")) == Language::Markdown) by {
        assert(decode_utf8(encode_utf8("md"@)) == "md"@);
        assert("md"@[0] == 'm' && "md"@[1] == 'd');
        lemma_extension_path(stem, "md");
    }
    assert(path_language(dotted_path(stem, "markdown")) == Language::Markdown) by {
        assert(decode_utf8(encode_utf8("markdown"@)) == "markdown"@);
        assert("markdown"@[0] == 'm' && "markdown"@[1] == 'a' && "markdown"@[2] == 'r' && "markdown"@[3] == 'k' && "markdown"@[4] == 'd' && "markdown"@[5] == 'o' && "markdown"@[6] == 'w' && "markdown"@[7] == 'n');
        lemma_extension_path(stem, "markdown");
    }
    assert(path_language(dotted_path(stem, "nix")) == Language::Nix) by {
        assert(decode_utf8(encode_utf8("nix"@)) == "nix"@);
        assert("nix"@[0] == 'n' && "nix"@[1] == 'i' && "nix"@[2] == 'x');
        lemma_extension_path(stem, "nix");
    }
    assert(path_language(dotted_path(stem, "m")) == Language::ObjectiveC) by {
        assert(decode_utf8(encode_utf8("m"@)) == "m"@);
        assert("m"@[0] == 'm');
        lemma_extension_path(stem, "m");
    }
    assert(path_language(dotted_path(stem, "mm")) == Language::ObjectiveC) by {
        assert(decode_utf8(encode_utf8("mm"@)) == "mm"@);
        assert("mm"@[0] == 'm' && "mm"@[1] == 'm');
        lemma_extension_path(stem, "mm");
    }
}

/// The extension table, from Perl to Scala.
#[verifier::spinoff_prover]
#[verifier::rlimit(100)]
proof fn lemma_table_perl_to_scala(stem: Seq<u8>)
    ensures
        path_language(dotted_path(stem, "pl")) == Language::Perl,
        path_language(dotted_path(stem, "pm")) == Language::Perl,
        path_language(dotted_path(stem, "php")) == Language::Php,
        path_language(dotted_path(stem, "py")) == Language::Python,
        path_language(dotted_path(stem, "pyw")) == Language::Python,
        path_language(dotted_path(stem, "r")) == Language::R,
        path_language(dotted_path(stem, "rb")) == Language::Ruby,
        path_language(dotted_path(stem, "rs")) == Language::Rust,
        path_language(dotted_path(stem, "scala")) == Language::Scala,
        path_language(dotted_path(stem, "sc")) == Language::Scala,
{
    broadcast use encode_utf8_decode_utf8;

    lemma_table_words();
    assert(path_language(dotted_path(stem, "pl")) == Language::Perl) by {
        assert(decode_utf8(encode_utf8("pl"@)) == "pl"@);
        assert("pl"@[0] == 'p' && "pl"@[1] == 'l');
        lemma_extension_path(stem, "pl");
    }
    assert(path_language(dotted_path(stem, "pm")) == Language::Perl) by {
        assert(decode_utf8(encode_utf8("pm"@)) == "pm"@);
        assert("pm"@[0] == 'p' && "pm"@[1] == 'm');
        lemma_extension_path(stem, "pm");
    }
    assert(path_language(dotted_path(stem, "php")) == Language::Php) by {
        assert(decode_utf8(encode_utf8("php"@)) == "php"@);
        assert("php"@[0] == 'p' && "php"@[1] == 'h' && "php"@[2] == 'p');
        lemma_extension_path(stem, "php");
    }
    assert(path_language(dotted_path(stem, "py")) == Language::Python) by {
        assert(decode_utf8(encode_utf8("py"@)) == "py"@);
        assert("py"@[0] == 'p' && "py"@[1] == 'y');
        lemma_extension_path(stem, "py");
    }
    assert(path_language(dotted_path(stem, "pyw")) == Language::Python) by {
        assert(decode_utf8(encode_utf8("pyw"@)) == "pyw"@);
        assert("pyw"@[0] == 'p' && "pyw"@[1] == 'y' && "pyw"@[2] == 'w');
        lemma_extension_path(stem, "pyw");
    }
    assert(path_language(dotted_path(stem, "r")) == Language::R) by {
        assert(decode_utf8(encode_utf8("r"@)) == "r"@);
        assert("r"@[0] == 'r');
        lemma_extension_path(stem, "r");
    }
    assert(path_language(dotted_path(stem, "rb")) == Language::Ruby) by {
        assert(decode_utf8(encode_utf8("rb"@)) == "rb"@);
        assert("rb"@[0] == 'r' && "rb"@[1] == 'b');
        lemma_extension_path(stem, "rb");
    }
    assert(path_language(dotted_path(stem, "rs")) == Language::Rust) by {
        assert(decode_utf8(encode_utf8("rs"@)) == "rs"@);
        assert("rs"@[0] == 'r' && "rs"@[1] == 's');
        lemma_extension_path(stem, "rs");
    }
    assert(path_language(dotted_path(stem, "scala")) == Language::Scala) by {
        assert(decode_utf8(encode_utf8("scala"@)) == "scala"@);
        assert("scala"@[0] == 's' && "scala"@[1] == 'c' && "scala"@[2] == 'a' && "scala"@[3] == 'l' && "scala"@[4] == 'a');
        lemma_extension_path(stem, "scala");
    }
    assert(path_language(dotted_path(stem, "sc")) == Language::Scala) by {
        assert(decode_utf8(encode_utf8("sc"@)) == "sc"@);
        assert("sc"@[0] == 's' && "sc"@[1] == 'c');
        lemma_extension_path(stem, "sc");
    }
}

/// The extension table, from Shell to TypeScript.
#[verifier::spinoff_prover]
#[verifier::rlimit(100)]
proof fn lemma_table_shell_to_typescript(stem: Seq<u8>)
    ensures
        path_language(dotted_path(stem, "sh")) == Language::Shell,
        path_language(dotted_path(stem, "bash")) == Language::Shell,
        path_language(dotted_path(stem, "zsh")) == Language::Shell,
        path_language(dotted_path(stem, "fish")) == Language::Shell,
        path_language(dotted_path(stem, "sql")) == Language::Sql,
        path_language(dotted_path(stem, "swift")) == Language::Swift,
        path_language(dotted_path(stem, "toml")) == Language::Toml,
        path_language(dotted_path(stem, "ts")) == Language::TypeScript,
        path_language(dotted_path(stem, "tsx")) == Language::TypeScript,
        path_language(dotted_path(stem, "mts")) == Language::TypeScript,
        path_language(dotted_path(stem, "cts")) == Language::TypeScript,
{
    broadcast use encode_utf8_decode_utf8;

    lemma_table_words();
    assert(path_language(dotted_path(stem, "sh")) == Language::Shell) by {
        assert(decode_utf8(encode_utf8("sh"@)) == "sh"@);
        assert("sh"@[0] == 's' && "sh"@[1] == 'h');
        lemma_extension_path(stem, "sh");
    }
    assert(path_language(dotted_path(stem, "bash")) == Language::Shell) by {
        assert(decode_utf8(encode_utf8("bash"@)) == "bash"@);
        assert("bash"@[0] == 'b' && "bash"@[1] == 'a' && "bash"@[2] == 's' && "bash"@[3] == 'h');
        lemma_extension_path(stem, "bash");
    }
    assert(path_language(dotted_path(stem, "zsh")) == Language::Shell) by {
        assert(decode_utf8(encode_utf8("zsh"@)) == "zsh"@);
        assert("zsh"@[0] == 'z' && "zsh"@[1] == 's' && "zsh"@[2] == 'h');
        lemma_extension_path(stem, "zsh");
    }
    assert(path_language(dotted_path(stem, "fish")) == Language::Shell) by {
        assert(decode_utf8(encode_utf8("fish"@)) == "fish"@);
        assert("fish"@[0] == 'f' && "fish"@[1] == 'i' && "fish"@[2] == 's' && "fish"@[3] == 'h');
        lemma_extension_path(stem, "fish");
    }
    assert(path_language(dotted_path(stem, "sql")) == Language::Sql) by {
        assert(decode_utf8(encode_utf8("sql"@)) == "sql"@);
        assert("sql"@[0] == 's' && "sql"@[1] == 'q' && "sql"@[2] == 'l');
        lemma_extension_path(stem, "sql");
    }
    assert(path_language(dotted_path(stem, "swift")) == Language::Swift) by {
        assert(decode_utf8(encode_utf8("swift"@)) == "swift"@);
        assert("swift"@[0] == 's' && "swift"@[1] == 'w' && "swift"@[2] == 'i' && "swift"@[3] == 'f' && "swift"@[4] == 't');
        lemma_extension_path(stem, "swift");
    }
    assert(path_language(dotted_path(stem, "toml")) == Language::Toml) by {
        assert(decode_utf8(encode_utf8("toml"@)) == "toml"@);
        assert("toml"@[0] == 't' && "toml"@[1] == 'o' && "toml"@[2] == 'm' && "toml"@[3] == 'l');
        lemma_extension_path(stem, "toml");
    }
    assert(path_language(dotted_path(stem, "ts")) == Language::TypeScript) by {
        assert(decode_utf8(encode_utf8("ts"@)) == "ts"@);
        assert("ts"@[0] == 't' && "ts"@[1] == 's');
        lemma_extension_path(stem, "ts");
    }
    assert(path_language(dotted_path(stem, "tsx")) == Language::TypeScript) by {
        assert(decode_utf8(encode_utf8("tsx"@)) == "tsx"@);
        assert("tsx"@[0] == 't' && "tsx"@[1] == 's' && "tsx"@[2] == 'x');
        lemma_extension_path(stem, "tsx");
    }
    assert(path_language(dotted_path(stem, "mts")) == Language::TypeScript) by {
        assert(decode_utf8(encode_utf8("mts"@)) == "mts"@);
        assert("mts"@[0] == 'm' && "mts"@[1] == 't' && "mts"@[2] == 's');
        lemma_extension_path(stem, "mts");
    }
    assert(path_language(dotted_path(stem, "cts")) == Language::TypeScript) by {
        assert(decode_utf8(encode_utf8("cts"@)) == "cts"@);
        assert("cts"@[0] == 'c' && "cts"@[1] == 't' && "cts"@[2] == 's');
        lemma_extension_path(stem, "cts");
    }
}

/// The extension table, from Vue to Yaml.
#[verifier::spinoff_prover]
#[verifier::rlimit(100)]
proof fn lemma_table_vue_to_yaml(stem: Seq<u8>)
    ensures
        path_language(dotted_path(stem, "vue")) == Language::Vue,
        path_language(dotted_path(stem, "xml")) == Language::Xml,
        path_language(dotted_path(stem, "svg")) == Language::Xml,
        path_language(dotted_path(stem, "yaml")) == Language::Yaml,
        path_language(dotted_path(stem, "yml")) == Language::Yaml,
{
    broadcast use encode_utf8_decode_utf8;

    lemma_table_words();
    assert(path_language(dotted_path(stem, "vue")) == Language::Vue) by {
        assert(decode_utf8(encode_utf8("vue"@)) == "vue"@);
        assert("vue"@[0] == 'v' && "vue"@[1] == 'u' && "vue"@[2] == 'e');
        lemma_extension_path(stem, "vue");
    }
    assert(path_language(dotted_path(stem, "xml")) == Language::Xml) by {
        assert(decode_utf8(encode_utf8("xml"@)) == "xml"@);
        assert("xml"@[0] == 'x' && "xml"@[1] == 'm' && "xml"@[2] == 'l');
        lemma_extension_path(stem, "xml");
    }
    assert(path_language(dotted_path(stem, "svg")) == Language::Xml) by {
        assert(decode_utf8(encode_utf8("svg"@)) == "svg"@);
        assert("svg"@[0] == 's' && "svg"@[1] == 'v' && "svg"@[2] == 'g');
        lemma_extension_path(stem, "svg");
    }
    assert(path_language(dotted_path(stem, "yaml")) == Language::Yaml) by {
        assert(decode_utf8(encode_utf8("yaml"@)) == "yaml"@);
        assert("yaml"@[0] == 'y' && "yaml"@[1] == 'a' && "yaml"@[2] == 'm' && "yaml"@[3] == 'l');
        lemma_extension_path(stem, "yaml");
    }
    assert(path_language(dotted_path(stem, "yml")) == Language::Yaml) by {
        assert(decode_utf8(encode_utf8("yml"@)) == "yml"@);
        assert("yml"@[0] == 'y' && "yml"@[1] == 'm' && "yml"@[2] == 'l');
        lemma_extension_path(stem, "yml");
    }
}

/// The extension table: a file whose lower-cased extension is one of the
/// listed words is counted under that word's language, whatever precedes the
/// last dot (directories and dots included).
pub proof fn law_extension_table(stem: Seq<u8>)
    ensures
        path_language(dotted_path(stem, "c")) == Language::C,
        path_language(dotted_path(stem, "h")) == Language::C,
        path_language(dotted_path(stem, "cc")) == Language::Cpp,
        path_language(dotted_path(stem, "cpp")) == Language::Cpp,
        path_language(dotted_path(stem, "cxx")) == Language::Cpp,
        path_language(dotted_path(stem, "hh")) == Language::Cpp,
        path_language(dotted_path(stem, "hpp")) == Language::Cpp,
        path_language(dotted_path(stem, "hxx")) == Language::Cpp,
        path_language(dotted_path(stem, "cs")) == Language::CSharp,
        path_language(dotted_path(stem, "css")) == Language::Css,
        path_language(dotted_path(stem, "scss")) == Language::Css,
        path_language(dotted_path(stem, "sass")) == Language::Css,
        path_language(dotted_path(stem, "less")) == Language::Css,
        path_language(dotted_path(stem, "dart")) == Language::Dart,
        path_language(dotted_path(stem, "ex")) == Language::Elixir,
        path_language(dotted_path(stem, "exs")) == Language::Elixir,
        path_language(dotted_path(stem, "go")) == Language::Go,
        path_language(dotted_path(stem, "hs")) == Language::Haskell,
        path_language(dotted_path(stem, "lhs")) == Language::Haskell,
        path_language(dotted_path(stem, "htm")) == Language::Html,
        path_language(dotted_path(stem, "html")) == Language::Html,
        path_language(dotted_path(stem, "java")) == Language::Java,
        path_language(dotted_path(stem, "js")) == Language::JavaScript,
        path_language(dotted_path(stem, "jsx")) == Language::JavaScript,
        path_language(dotted_path(stem, "mjs")) == Language::JavaScript,
        path_language(dotted_path(stem, "cjs")) == Language::JavaScript,
        path_language(dotted_path(stem, "json")) == Language::Json,
        path_language(dotted_path(stem, "jl")) == Language::Julia,
        path_language(dotted_path(stem, "kt")) == Language::Kotlin,
        path_language(dotted_path(stem, "kts")) == Language::Kotlin,
        path_language(dotted_path(stem, "lua")) == Language::Lua,
        path_language(dotted_path(stem, "md")) == Language::Markdown,
        path_language(dotted_path(stem, "markdown")) == Language::Markdown,
        path_language(dotted_path(stem, "nix")) == Language::Nix,
        path_language(dotted_path(stem, "m")) == Language::ObjectiveC,
        path_language(dotted_path(stem, "mm")) == Language::ObjectiveC,
        path_language(dotted_path(stem, "pl")) == Language::Perl,
        path_language(dotted_path(stem, "pm")) == Language::Perl,
        path_language(dotted_path(stem, "php")) == Language::Php,
        path_language(dotted_path(stem, "py")) == Language::Python,
        path_language(dotted_path(stem, "pyw")) == Language::Python,
        path_language(dotted_path(stem, "r")) == Language::R,
        path_language(dotted_path(stem, "rb")) == Language::Ruby,
        path_language(dotted_path(stem, "rs")) == Language::Rust,
        path_language(dotted_path(stem, "scala")) == Language::Scala,
        path_language(dotted_path(stem, "sc")) == Language::Scala,
        path_language(dotted_path(stem, "sh")) == Language::Shell,
        path_language(dotted_path(stem, "bash")) == Language::Shell,
        path_language(dotted_path(stem, "zsh")) == Language::Shell,
        path_language(dotted_path(stem, "fish")) == Language::Shell,
        path_language(dotted_path(stem, "sql")) == Language::Sql,
        path_language(dotted_path(stem, "swift")) == Language::Swift,
        path_language(dotted_path(stem, "toml")) == Language::Toml,
        path_language(dotted_path(stem, "ts")) == Language::TypeScript,
        path_language(dotted_path(stem, "tsx")) == Language::TypeScript,
        path_language(dotted_path(stem, "mts")) == Language::TypeScript,
        path_language(dotted_path(stem, "cts")) == Language::TypeScript,
        path_language(dotted_path(stem, "vue")) == Language::Vue,
        path_language(dotted_path(stem, "xml")) == Language::Xml,
        path_language(dotted_path(stem, "svg")) == Language::Xml,
        path_language(dotted_path(stem, "yaml")) == Language::Yaml,
        path_language(dotted_path(stem, "yml")) == Language::Yaml,
{
    lemma_table_c_to_css(stem);
    lemma_table_dart_to_javascript(stem);
    lemma_table_json_to_objectivec(stem);
    lemma_table_perl_to_scala(stem);
    lemma_table_shell_to_typescript(stem);
    lemma_table_vue_to_yaml(stem);
}

/// The special file names: `Dockerfile` and `Containerfile` are Dockerfile,
/// `Makefile` and `GNUmakefile` are Makefile, in any directory (and, by
/// `law_language_ignores_case`, in any case).
#[verifier::spinoff_prover]
pub proof fn law_special_file_names(dir: Seq<u8>)
    ensures
        path_language(dir + seq![0x2Fu8] + encode_utf8("dockerfile"@)) == Language::Dockerfile,
        path_language(dir + seq![0x2Fu8] + encode_utf8("containerfile"@)) == Language::Dockerfile,
        path_language(dir + seq![0x2Fu8] + encode_utf8("makefile"@)) == Language::Makefile,
        path_language(dir + seq![0x2Fu8] + encode_utf8("gnumakefile"@)) == Language::Makefile,
{
    broadcast use encode_utf8_decode_utf8;

    reveal_strlit("dockerfile");
    reveal_strlit("containerfile");
    reveal_strlit("makefile");
    reveal_strlit("gnumakefile");
    assert forall|w: &str|
        #![trigger encode_utf8(w@)]
        w@ == "dockerfile"@ || w@ == "containerfile"@ || w@ == "makefile"@ || w@ == "gnumakefile"@
            implies path_language(dir + seq![0x2Fu8] + encode_utf8(w@)) == path_language(
        encode_utf8(w@),
    ) && file_name(encode_utf8(w@)) == encode_utf8(w@) && ascii_lowercase(encode_utf8(w@))
        == encode_utf8(w@) by {
        lemma_lowercase_word(w);
        let name = encode_utf8(w@);
        assert forall|i: int| 0 <= i < name.len() implies name[i] != 0x2Fu8 by {}
        law_language_by_file_name(dir, name);
        lemma_after_last(name, 0x2Fu8, -1);
        assert(ascii_lowercase(name) =~= name);
    }
    assert(decode_utf8(encode_utf8("makefile"@)) == "makefile"@);
    assert("makefile"@[0] == 'm');
    assert(decode_utf8(encode_utf8("gnumakefile"@)) == "gnumakefile"@);
    assert("gnumakefile"@[0] == 'g');
    assert(decode_utf8(encode_utf8("containerfile"@)) == "containerfile"@);
}

} // verus!
