//! The decisions of the macro that compiles schema files and takes in the code
//! that comes out.
use crate::glob::{
    check_tame, count, is_digit, is_glob, is_prefix_for, is_tame, occurrences, partition_glob,
};
use crate::strings::{chars_of, ends_with, leading, starts_with, to_decimal, trim_start};
use convert_case::Casing;
use std::hash::BuildHasher;
use syn::ext::IdentExt;
use syn::parse::Parser;
use vstd::prelude::*;
use vstd::string::*;

verus! {

/// The texts of some strings.
pub open spec fn texts(strings: Seq<String>) -> Seq<Seq<char>> {
    strings.map_values(|s: String| s@)
}

/// Copies of some strings.
fn copy_strings(strings: &Vec<String>) -> (r: Vec<String>)
    ensures
        r@ == strings@,
{
    let mut r: Vec<String> = Vec::new();
    let mut i: usize = 0;
    while i < strings.len()
        invariant
            0 <= i <= strings@.len(),
            r@ == strings@.take(i as int),
        decreases strings@.len() - i,
    {
        r.push(strings[i].clone());
        assert(strings@.take(i + 1) =~= strings@.take(i as int).push(strings@[i as int]));
        i += 1;
    }
    assert(strings@.take(i as int) =~= strings@);
    r
}

/// Why nothing is taken in.
#[derive(Debug)]
pub enum ImportError {
    /// The macro's arguments are no list of string literals.
    BadArguments(String),
    /// There are no patterns to search for.
    NoPatterns,
    /// A pattern is no glob expression.
    BadPattern(String),
    /// Nothing matches a pattern.
    NoMatches { pattern: String, manifest: String, searchpaths: Vec<String> },
    /// Nothing that matches is a file.
    NoFiles { manifest: String, searchpaths: Vec<String> },
    /// A path has no file name.
    NoFileName,
    /// A file name is no Unicode text.
    NotUnicode,
    /// A file holds no Rust tokens.
    NotTokens,
    /// A file's name gives a module no name.
    NotIdentifier,
}

/// A file name as the file system has it.
pub enum Name {
    Missing,
    NotUnicode,
    Text(String),
}

/// Something that a pattern matches.
pub struct Entry<P> {
    pub path: P,
    pub is_file: bool,
}

/// Where to look for what a pattern matches: in each of the directories, below
/// the prefix, for what the rest of the expression matches.
pub struct Search {
    /// The pattern as a glob expression.
    pub expression: String,
    /// The names along the directory that the expression begins with.
    pub prefix: Vec<String>,
    pub directories: Vec<String>,
}

/// What to do next.
pub enum Action {
    /// Find what a pattern matches.
    Walk(Search),
    /// Compile the files that were found.
    Run,
}

/// Whether a text can be broken into Rust tokens.
pub uninterp spec fn tokenizes(text: Seq<char>) -> bool;

/// `proc_macro2::TokenStream::from_str`: whether a text can be broken into Rust
/// tokens. Only what the crate's own lexer accepts is accepted. Inside a macro
/// the compiler has to accept it as well, so that a refusal says nothing.
#[verifier::external_body]
fn lexes(text: &str) -> (r: bool)
    ensures
        r ==> tokenizes(text@),
{
    text.parse::<proc_macro2::TokenStream>().is_ok()
}

/// The string literals that a text lists, separated by commas, if it does.
pub uninterp spec fn literals(input: Seq<char>) -> Option<Seq<Seq<char>>>;

/// Whether a text begins with a string literal, if it is a list of those, and
/// holds no carriage return.
pub open spec fn begins_with_literal(input: Seq<char>) -> bool {
    &&& input.len() > 0
    &&& input[0] == '"' || input[0] == 'r'
    &&& !input.contains('\r')
}

/// Where in a list of string literals a text is.
#[derive(Clone, Copy, PartialEq, Eq, Structural)]
pub enum Place {
    /// Between literals.
    Between,
    /// In a literal with escapes.
    Quoted,
    /// Behind a backslash in such a literal.
    Escaped,
    /// Behind the `r` of a raw literal, and some number signs.
    RawBegin(u8),
    /// In a raw literal with that many number signs.
    Raw(u8),
    /// Behind a quotation mark in such a literal, and some number signs.
    RawEnd(u8, u8),
    /// Right behind a literal.
    Behind,
    /// In no such list.
    Outside,
}

/// Where a text is one character later.
pub open spec fn place_after(place: Place, c: char) -> Place {
    match place {
        Place::Between => if c == ' ' || c == '\n' || c == '\t' || c == ',' {
            Place::Between
        } else if c == '"' {
            Place::Quoted
        } else if c == 'r' {
            Place::RawBegin(0)
        } else {
            Place::Outside
        },
        Place::Quoted => if c == '\\' {
            Place::Escaped
        } else if c == '"' {
            Place::Behind
        } else {
            Place::Quoted
        },
        Place::Escaped => Place::Quoted,
        Place::RawBegin(signs) => if c == '"' {
            Place::Raw(signs)
        } else if c == '#' && signs < 255 {
            Place::RawBegin((signs + 1) as u8)
        } else {
            Place::Outside
        },
        Place::Raw(signs) => if c != '"' {
            Place::Raw(signs)
        } else if signs == 0 {
            Place::Behind
        } else {
            Place::RawEnd(signs, 0)
        },
        Place::RawEnd(signs, seen) => if c == '"' {
            Place::RawEnd(signs, 0)
        } else if c != '#' {
            Place::Raw(signs)
        } else if seen + 1 >= signs {
            Place::Behind
        } else {
            Place::RawEnd(signs, (seen + 1) as u8)
        },
        Place::Behind => if c == ' ' || c == '\n' || c == '\t' || c == ',' {
            Place::Between
        } else {
            Place::Outside
        },
        Place::Outside => Place::Outside,
    }
}

/// Where a text is behind its first `n` characters.
pub open spec fn place(input: Seq<char>, n: int) -> Place
    decreases n,
{
    if n <= 0 {
        Place::Between
    } else {
        place_after(place(input, n - 1), input[n - 1])
    }
}

/// Whether a text holds string literals, white space and commas alone.
pub open spec fn is_literal_list(input: Seq<char>) -> bool {
    place(input, input.len() as int) is Between || place(input, input.len() as int) is Behind
}

/// Whether a text is not deeply nested: it holds nothing but string literals, in
/// which brackets mean nothing, or few brackets.
pub open spec fn is_flat(input: Seq<char>) -> bool {
    ||| is_literal_list(input)
    ||| occurrences(input, '(') + occurrences(input, '[') + occurrences(input, '{') <= 256
}

/// Where a text is one character later.
fn next_place(place: Place, c: char) -> (r: Place)
    ensures
        r == place_after(place, c),
{
    match place {
        Place::Between => if c == ' ' || c == '\n' || c == '\t' || c == ',' {
            Place::Between
        } else if c == '"' {
            Place::Quoted
        } else if c == 'r' {
            Place::RawBegin(0)
        } else {
            Place::Outside
        },
        Place::Quoted => if c == '\\' {
            Place::Escaped
        } else if c == '"' {
            Place::Behind
        } else {
            Place::Quoted
        },
        Place::Escaped => Place::Quoted,
        Place::RawBegin(signs) => if c == '"' {
            Place::Raw(signs)
        } else if c == '#' && signs < 255 {
            Place::RawBegin(signs + 1)
        } else {
            Place::Outside
        },
        Place::Raw(signs) => if c != '"' {
            Place::Raw(signs)
        } else if signs == 0 {
            Place::Behind
        } else {
            Place::RawEnd(signs, 0)
        },
        Place::RawEnd(signs, seen) => if c == '"' {
            Place::RawEnd(signs, 0)
        } else if c != '#' {
            Place::Raw(signs)
        } else if seen as u32 + 1 >= signs as u32 {
            Place::Behind
        } else {
            Place::RawEnd(signs, seen + 1)
        },
        Place::Behind => if c == ' ' || c == '\n' || c == '\t' || c == ',' {
            Place::Between
        } else {
            Place::Outside
        },
        Place::Outside => Place::Outside,
    }
}

/// Whether a text is not deeply nested.
fn check_flat(input: &str) -> (r: bool)
    ensures
        r == is_flat(input@),
{
    let chars = chars_of(input);
    let mut here = Place::Between;
    let mut i: usize = 0;
    while i < chars.len()
        invariant
            chars@ == input@,
            0 <= i <= chars@.len(),
            here == place(input@, i as int),
        decreases chars@.len() - i,
    {
        here = next_place(here, chars[i]);
        i += 1;
    }
    if let Place::Between | Place::Behind = here {
        return true;
    }
    let round: usize = count(&chars, '(');
    let square: usize = count(&chars, '[');
    let curly: usize = count(&chars, '{');
    round <= 256 && square <= 256 && curly <= 256 && round + square + curly <= 256
}

/// `syn::punctuated::Punctuated::parse_separated_nonempty` for string literals
/// and commas, on the tokens of a text: the values of the literals, of which
/// there is at least one, or the error's message. Inside a macro the compiler
/// breaks the text into tokens: it may refuse more than the crate's own lexer,
/// it does away with carriage returns, and it may skip something before the
/// first literal.
#[verifier::external_body]
fn parse_literals(input: &str) -> (r: Result<Vec<String>, String>)
    requires
        is_flat(input@),
    ensures
        r is Ok ==> tokenizes(input@),
        begins_with_literal(input@) ==> (r matches Ok(v) ==> literals(input@) == Some(texts(v@))),
        r matches Ok(v) ==> v@.len() > 0,
{
    let parser =
        syn::punctuated::Punctuated::<syn::LitStr, syn::token::Comma>::parse_separated_nonempty;
    match parser.parse_str(input) {
        Ok(list) => Ok(list.into_iter().map(|item| item.value()).collect()),
        Err(e) => Err(e.to_string()),
    }
}

/// The patterns, once the macro's arguments have been parsed, or not.
pub fn patterns_of(parsed: Result<Vec<String>, String>) -> (r: Result<Vec<String>, ImportError>)
    ensures
        match parsed {
            Ok(patterns) => r matches Ok(v) && v == patterns,
            Err(message) => r matches Err(ImportError::BadArguments(m)) && m == message,
        },
{
    match parsed {
        Ok(patterns) => Ok(patterns),
        Err(message) => Err(ImportError::BadArguments(message)),
    }
}

/// The patterns that the macro's arguments give.
pub fn import_patterns(input: &str) -> (r: Result<Vec<String>, ImportError>)
    ensures
        !is_flat(input@) ==> (r matches Err(ImportError::BadArguments(m)) && m@
            == "the arguments hold too many brackets"@),
        match r {
            Ok(v) => {
                &&& v@.len() > 0
                &&& is_flat(input@)
                &&& tokenizes(input@)
                &&& begins_with_literal(input@) ==> literals(input@) == Some(texts(v@))
            },
            Err(e) => e is BadArguments,
        },
{
    if !check_flat(input) {
        return Err(ImportError::BadArguments("the arguments hold too many brackets".to_owned()));
    }
    patterns_of(parse_literals(input))
}

/// A text without the slashes that it begins with.
pub open spec fn unrooted(pattern: Seq<char>) -> Seq<char> {
    pattern.skip(leading(pattern, '/') as int)
}

/// The directories in which a pattern is searched: one that begins with a slash
/// in the search paths, any other in the manifest's directory.
pub open spec fn search_directories(
    pattern: Seq<char>,
    searchpaths: Seq<Seq<char>>,
    manifest: Seq<char>,
) -> Seq<Seq<char>> {
    if pattern.len() > 0 && pattern[0] == '/' {
        searchpaths
    } else {
        seq![manifest]
    }
}

/// Whether a search is the one for a pattern.
pub open spec fn is_search_for(
    search: Search,
    pattern: Seq<char>,
    searchpaths: Seq<Seq<char>>,
    manifest: Seq<char>,
) -> bool {
    &&& search.expression@ == unrooted(pattern)
    &&& texts(search.directories@) == search_directories(pattern, searchpaths, manifest)
    &&& is_prefix_for(texts(search.prefix@), unrooted(pattern))
}

/// What is left of a text without the slashes that it begins with does not begin
/// with one.
proof fn lemma_unrooted(pattern: Seq<char>)
    ensures
        leading(pattern, '/') <= pattern.len(),
        unrooted(pattern).len() > 0 ==> unrooted(pattern)[0] != '/',
    decreases pattern.len(),
{
    if pattern.len() > 0 && pattern[0] == '/' {
        lemma_unrooted(pattern.drop_first());
        assert(unrooted(pattern) =~= unrooted(pattern.drop_first()));
    }
}

/// Whether a pattern is accepted: it is a glob expression, and tame.
pub open spec fn is_accepted(pattern: Seq<char>) -> bool {
    is_tame(unrooted(pattern)) && is_glob(unrooted(pattern))
}

/// The search for a pattern whose expression begins with the given directory.
pub fn search_below(
    pattern: &str,
    prefix: Vec<String>,
    searchpaths: &Vec<String>,
    manifest: &String,
) -> (r: Search)
    ensures
        r.expression@ == unrooted(pattern@),
        r.prefix == prefix,
        texts(r.directories@) == search_directories(pattern@, texts(searchpaths@), manifest@),
{
    let directories = if starts_with(pattern, "/") {
        copy_strings(searchpaths)
    } else {
        let mut directories: Vec<String> = Vec::new();
        directories.push(manifest.clone());
        directories
    };
    proof {
        reveal_strlit("/");
        if "/"@.is_prefix_of(pattern@) {
            assert("/"@[0] == pattern@.subrange(0, 1)[0]);
        } else if pattern@.len() > 0 && pattern@[0] == '/' {
            assert("/"@ =~= pattern@.subrange(0, 1));
        }
        assert(texts(directories@) =~= search_directories(
            pattern@,
            texts(searchpaths@),
            manifest@,
        ));
    }
    Search { expression: trim_start(pattern, '/').to_owned(), prefix, directories }
}

/// The search for a pattern.
pub fn plan_search(pattern: &str, searchpaths: &Vec<String>, manifest: &String) -> (r: Result<
    Search,
    ImportError,
>)
    ensures
        r is Ok <==> is_accepted(pattern@),
        match r {
            Ok(search) => is_search_for(search, pattern@, texts(searchpaths@), manifest@),
            Err(e) => e is BadPattern,
        },
{
    let expression = trim_start(pattern, '/');
    if !check_tame(expression) {
        return Err(ImportError::BadPattern("the pattern is too complex".to_owned()));
    }
    proof {
        lemma_unrooted(pattern@);
    }
    match partition_glob(expression) {
        Ok(prefix) => Ok(search_below(pattern, prefix, searchpaths, manifest)),
        Err(message) => Err(ImportError::BadPattern(message)),
    }
}

/// Whether an environment variable names a schema directory.
pub open spec fn is_schema_variable(key: Seq<char>) -> bool {
    "DEP_"@.is_prefix_of(key) && "_SCHEMA_DIR"@.is_suffix_of(key)
}

/// The schema directories that the first `n` environment variables name.
pub open spec fn schema_directories(vars: Seq<(String, String)>, n: int) -> Seq<Seq<char>>
    decreases n,
{
    if n <= 0 {
        Seq::empty()
    } else if is_schema_variable(vars[n - 1].0@) {
        schema_directories(vars, n - 1).push(vars[n - 1].1@)
    } else {
        schema_directories(vars, n - 1)
    }
}

/// The schema directories that environment variables name, in their order.
pub fn search_paths(vars: &Vec<(String, String)>) -> (r: Vec<String>)
    ensures
        texts(r@) == schema_directories(vars@, vars@.len() as int),
{
    let mut r: Vec<String> = Vec::new();
    let mut i: usize = 0;
    assert(texts(r@) =~= Seq::<Seq<char>>::empty());
    while i < vars.len()
        invariant
            0 <= i <= vars@.len(),
            texts(r@) == schema_directories(vars@, i as int),
        decreases vars@.len() - i,
    {
        let key = vars[i].0.as_str();
        if starts_with(key, "DEP_") && ends_with(key, "_SCHEMA_DIR") {
            let ghost before = r@;
            r.push(vars[i].1.clone());
            assert(texts(r@) =~= texts(before).push(vars@[i as int].1@));
        }
        i += 1;
    }
    r
}

/// The paths of the files among the first `n` entries.
pub open spec fn file_paths<P>(entries: Seq<Entry<P>>, n: int) -> Seq<P>
    decreases n,
{
    if n <= 0 {
        Seq::empty()
    } else if entries[n - 1].is_file {
        file_paths(entries, n - 1).push(entries[n - 1].path)
    } else {
        file_paths(entries, n - 1)
    }
}

/// A search for schema files: what is searched for, how far it is, and what it
/// found.
pub struct Importer<P> {
    patterns: Vec<String>,
    searchpaths: Vec<String>,
    manifest: String,
    done: usize,
    files: Vec<P>,
}

/// What an importer stands for.
pub struct Progress<P> {
    pub patterns: Seq<Seq<char>>,
    pub searchpaths: Seq<Seq<char>>,
    pub manifest: Seq<char>,
    /// How many patterns have been searched for.
    pub done: nat,
    /// The files that have been found.
    pub files: Seq<P>,
}

impl<P> Progress<P> {
    /// The beginning of a search.
    pub open spec fn begun(
        patterns: Seq<Seq<char>>,
        searchpaths: Seq<Seq<char>>,
        manifest: Seq<char>,
    ) -> Self {
        Progress { patterns, searchpaths, manifest, done: 0, files: Seq::empty() }
    }

    /// The search after a pattern was found to match some entries.
    pub open spec fn after(self, entries: Seq<Entry<P>>) -> Self {
        Progress {
            done: self.done + 1,
            files: self.files + file_paths(entries, entries.len() as int),
            ..self
        }
    }

    /// The search after the first `n` of some walks.
    pub open spec fn after_all(self, walks: Seq<Seq<Entry<P>>>, n: int) -> Self
        decreases n,
    {
        if n <= 0 {
            self
        } else {
            self.after_all(walks, n - 1).after(walks[n - 1])
        }
    }
}

/// The files that the first `n` of some walks found.
pub open spec fn files_of_walks<P>(walks: Seq<Seq<Entry<P>>>, n: int) -> Seq<P>
    decreases n,
{
    if n <= 0 {
        Seq::empty()
    } else {
        files_of_walks(walks, n - 1) + file_paths(walks[n - 1], walks[n - 1].len() as int)
    }
}

impl<P> View for Importer<P> {
    type V = Progress<P>;

    closed spec fn view(&self) -> Progress<P> {
        Progress {
            patterns: texts(self.patterns@),
            searchpaths: texts(self.searchpaths@),
            manifest: self.manifest@,
            done: self.done as nat,
            files: self.files@,
        }
    }
}

impl<P> Importer<P> {
    /// No more patterns are done than there are.
    pub open spec fn wf(self) -> bool {
        self@.done <= self@.patterns.len()
    }

    /// Begins the search for some patterns.
    pub fn start(patterns: Vec<String>, vars: &Vec<(String, String)>, manifest: String) -> (r: Result<
        Self,
        ImportError,
    >)
        ensures
            if patterns@.len() == 0 {
                r matches Err(e) && e is NoPatterns
            } else {
                &&& r matches Ok(importer)
                &&& importer.wf()
                &&& importer@ == Progress::<P>::begun(
                    texts(patterns@),
                    schema_directories(vars@, vars@.len() as int),
                    manifest@,
                )
            },
    {
        if patterns.len() == 0 {
            return Err(ImportError::NoPatterns);
        }
        Ok(
            Importer {
                patterns,
                searchpaths: search_paths(vars),
                manifest,
                done: 0,
                files: Vec::new(),
            },
        )
    }

    /// The directories in which schemas may import others.
    pub fn import_paths(&self) -> (r: &Vec<String>)
        ensures
            texts(r@) == self@.searchpaths,
    {
        &self.searchpaths
    }

    /// What to do next: search for the next pattern, or, once all are searched
    /// for, compile.
    pub fn next_action(&self) -> (r: Result<Action, ImportError>)
        requires
            self.wf(),
        ensures
            if self@.done < self@.patterns.len() {
                let pattern = self@.patterns[self@.done as int];
                &&& (r is Ok <==> is_accepted(pattern))
                &&& match r {
                    Ok(action) => action matches Action::Walk(search) && is_search_for(
                        search,
                        pattern,
                        self@.searchpaths,
                        self@.manifest,
                    ),
                    Err(e) => e is BadPattern,
                }
            } else if self@.files.len() > 0 {
                r matches Ok(Action::Run)
            } else {
                &&& r matches Err(ImportError::NoFiles { manifest, searchpaths })
                &&& manifest@ == self@.manifest
                &&& texts(searchpaths@) == self@.searchpaths
            },
    {
        if self.done < self.patterns.len() {
            match plan_search(
                self.patterns[self.done].as_str(),
                &self.searchpaths,
                &self.manifest,
            ) {
                Ok(search) => Ok(Action::Walk(search)),
                Err(e) => Err(e),
            }
        } else if self.files.len() > 0 {
            Ok(Action::Run)
        } else {
            Err(
                ImportError::NoFiles {
                    manifest: self.manifest.clone(),
                    searchpaths: copy_strings(&self.searchpaths),
                },
            )
        }
    }

    /// Takes what the search for the next pattern found.
    pub fn walked(&mut self, entries: Vec<Entry<P>>) -> (r: Result<(), ImportError>)
        requires
            old(self).wf(),
            old(self)@.done < old(self)@.patterns.len(),
        ensures
            final(self).wf(),
            if entries@.len() == 0 {
                &&& r matches Err(ImportError::NoMatches { pattern, manifest, searchpaths })
                &&& pattern@ == old(self)@.patterns[old(self)@.done as int]
                &&& manifest@ == old(self)@.manifest
                &&& texts(searchpaths@) == old(self)@.searchpaths
                &&& final(self)@ == old(self)@
            } else {
                &&& r is Ok
                &&& final(self)@ == old(self)@.after(entries@)
            },
    {
        if entries.len() == 0 {
            return Err(
                ImportError::NoMatches {
                    pattern: self.patterns[self.done].clone(),
                    manifest: self.manifest.clone(),
                    searchpaths: copy_strings(&self.searchpaths),
                },
            );
        }
        let ghost all = entries@;
        let ghost n = all.len() as int;
        let mut entries = entries;
        let mut found: Vec<P> = Vec::new();
        // Entries are taken from the end, so that each can be moved out.
        while entries.len() > 0
            invariant
                entries@ == all.take(entries@.len() as int),
                n == all.len(),
                entries@.len() <= n,
                file_paths(all, n) == file_paths(all, entries@.len() as int)
                    + found@.reverse(),
            decreases entries@.len(),
        {
            let ghost k = entries@.len() as int;
            if let Some(entry) = entries.pop() {
                assert(entries@ =~= all.take(k - 1));
                if entry.is_file {
                    let ghost before = found@;
                    found.push(entry.path);
                    assert(file_paths(all, k) + before.reverse() =~= file_paths(all, k - 1)
                        + found@.reverse());
                }
            }
        }
        assert(self.done < self.patterns@.len());
        let room: usize = self.patterns.len();
        let ghost files = self.files@;
        let ghost picked = found@.reverse();
        assert(file_paths(all, n) =~= picked);
        while found.len() > 0
            invariant
                found@.len() <= picked.len(),
                found@ == picked.reverse().take(found@.len() as int),
                self.files@ == files + picked.take(picked.len() - found@.len()),
                self.patterns == old(self).patterns,
                self.searchpaths == old(self).searchpaths,
                self.manifest == old(self).manifest,
                self.done == old(self).done,
                self.done < room,
            decreases found@.len(),
        {
            let ghost k = found@.len() as int;
            if let Some(path) = found.pop() {
                assert(path == picked[picked.len() - k]);
                self.files.push(path);
                assert(picked.take(picked.len() - k + 1) =~= picked.take(picked.len() - k).push(
                    path,
                ));
            }
        }
        assert(picked.take(picked.len() as int) =~= picked);
        self.done = self.done + 1;
        Ok(())
    }

    /// The files to compile.
    pub fn into_files(self) -> (r: Vec<P>)
        ensures
            r@ == self@.files,
    {
        self.files
    }
}

/// Once every pattern has been searched for, the files are those that the walks
/// found, pattern by pattern, each in the order of its walk.
pub proof fn law_files_in_order_of_patterns<P>(
    patterns: Seq<Seq<char>>,
    searchpaths: Seq<Seq<char>>,
    manifest: Seq<char>,
    walks: Seq<Seq<Entry<P>>>,
)
    ensures
        Progress::<P>::begun(patterns, searchpaths, manifest).after_all(walks, walks.len() as int)
            == (Progress {
            patterns,
            searchpaths,
            manifest,
            done: walks.len(),
            files: files_of_walks(walks, walks.len() as int),
        }),
{
    let begun = Progress::<P>::begun(patterns, searchpaths, manifest);
    lemma_after_all(begun, walks, walks.len() as int);
    assert(begun.files + files_of_walks(walks, walks.len() as int) =~= files_of_walks(
        walks,
        walks.len() as int,
    ));
}

proof fn lemma_after_all<P>(progress: Progress<P>, walks: Seq<Seq<Entry<P>>>, n: int)
    requires
        0 <= n <= walks.len(),
    ensures
        progress.after_all(walks, n) == (Progress {
            done: progress.done + n as nat,
            files: progress.files + files_of_walks(walks, n),
            ..progress
        }),
    decreases n,
{
    if n > 0 {
        lemma_after_all(progress, walks, n - 1);
    }
    assert(progress.after_all(walks, n).files =~= progress.files + files_of_walks(walks, n));
}

/// A path is among the files found just where some walk came upon it as a file.
pub proof fn law_found_files_are_files<P>(walks: Seq<Seq<Entry<P>>>, path: P)
    ensures
        files_of_walks(walks, walks.len() as int).contains(path) <==> exists|i: int, j: int|
            {
                &&& 0 <= i < walks.len()
                &&& 0 <= j < walks[i].len()
                &&& (#[trigger] walks[i][j]).is_file
                &&& walks[i][j].path == path
            },
{
    lemma_found(walks, walks.len() as int, path);
}

proof fn lemma_found<P>(walks: Seq<Seq<Entry<P>>>, n: int, path: P)
    requires
        0 <= n <= walks.len(),
    ensures
        files_of_walks(walks, n).contains(path) <==> exists|i: int, j: int|
            {
                &&& 0 <= i < n
                &&& 0 <= j < walks[i].len()
                &&& (#[trigger] walks[i][j]).is_file
                &&& walks[i][j].path == path
            },
    decreases n,
{
    if n > 0 {
        lemma_found(walks, n - 1, path);
        lemma_file_paths(walks[n - 1], walks[n - 1].len() as int, path);
        let before = files_of_walks(walks, n - 1);
        let here = file_paths(walks[n - 1], walks[n - 1].len() as int);
        assert((before + here).contains(path) <==> before.contains(path) || here.contains(path)) by {
            if before.contains(path) {
                let k = choose|k: int| 0 <= k < before.len() && before[k] == path;
                assert((before + here)[k] == path);
            }
            if here.contains(path) {
                let k = choose|k: int| 0 <= k < here.len() && here[k] == path;
                assert((before + here)[before.len() + k] == path);
            }
        }
        if here.contains(path) {
            let j = choose|j: int|
                0 <= j < walks[n - 1].len() && (#[trigger] walks[n - 1][j]).is_file && walks[n
                    - 1][j].path == path;
            assert(walks[n - 1][j].is_file);
        }
    }
}

proof fn lemma_file_paths<P>(entries: Seq<Entry<P>>, n: int, path: P)
    requires
        0 <= n <= entries.len(),
    ensures
        file_paths(entries, n).contains(path) <==> exists|j: int|
            0 <= j < n && (#[trigger] entries[j]).is_file && entries[j].path == path,
    decreases n,
{
    if n > 0 {
        lemma_file_paths(entries, n - 1, path);
        let before = file_paths(entries, n - 1);
        if entries[n - 1].is_file {
            let after = before.push(entries[n - 1].path);
            assert(after[before.len() as int] == entries[n - 1].path);
            if before.contains(path) {
                let k = choose|k: int| 0 <= k < before.len() && before[k] == path;
                assert(after[k] == path);
            }
        }
    }
}

/// Whether something in the output directory is code that was generated from a
/// schema.
pub fn is_generated(is_file: bool, file_name: &Name) -> (r: Result<bool, ImportError>)
    ensures
        if !is_file {
            r matches Ok(b) && !b
        } else {
            match *file_name {
                Name::Missing => r matches Err(e) && e is NoFileName,
                Name::NotUnicode => r matches Err(e) && e is NotUnicode,
                Name::Text(name) => r matches Ok(b) && b == "_capnp.rs"@.is_suffix_of(name@),
            }
        },
{
    if !is_file {
        return Ok(false);
    }
    match file_name {
        Name::Missing => Err(ImportError::NoFileName),
        Name::NotUnicode => Err(ImportError::NotUnicode),
        Name::Text(name) => Ok(ends_with(name.as_str(), "_capnp.rs")),
    }
}

/// A text in snake case.
pub uninterp spec fn snake_case(text: Seq<char>) -> Seq<char>;

/// `convert_case::Casing::to_case` with `Case::Snake`: the text in snake case.
#[verifier::external_body]
fn to_snake_case(text: &str) -> (r: String)
    ensures
        r@ == snake_case(text@),
{
    text.to_case(convert_case::Case::Snake)
}

/// Whether a character beyond ASCII is white space, or a mark, to a lexer.
pub open spec fn is_blank(c: char) -> bool {
    ||| c == '\u{85}'
    ||| c == '\u{200e}'
    ||| c == '\u{200f}'
    ||| c == '\u{2028}'
    ||| c == '\u{2029}'
    ||| c == '\u{feff}'
}

/// Whether a character can stand in a word.
pub open spec fn is_word_char(c: char) -> bool {
    (c >= '\u{80}' && !is_blank(c)) || c == '_' || is_digit(c) || 'a' <= c <= 'z' || 'A' <= c <= 'Z'
}

/// A text without the `r#` that it may begin with.
pub open spec fn without_raw(text: Seq<char>) -> Seq<char> {
    if text.len() >= 2 && text[0] == 'r' && text[1] == '#' {
        text.skip(2)
    } else {
        text
    }
}

/// Whether a text is a word: it may begin with `r#`; then come letters, digits and
/// underscores, no digit first. What letters and digits are beyond ASCII is left
/// open.
pub open spec fn is_word(text: Seq<char>) -> bool {
    &&& without_raw(text).len() > 0
    &&& !is_digit(without_raw(text)[0])
    &&& forall|i: int|
        0 <= i < without_raw(text).len() ==> is_word_char(#[trigger] without_raw(text)[i])
}

/// `syn::ext::IdentExt::parse_any`, on the tokens of a text: the text of the
/// identifier that the tokens are, if they are one. An identifier is a word.
/// Inside a macro the compiler breaks the text into tokens: it may refuse more
/// than the crate's own lexer.
#[verifier::external_body]
fn parse_identifier(text: &str) -> (r: Option<String>)
    requires
        is_word(text@),
    ensures
        r is Some ==> tokenizes(text@),
        r matches Some(identifier) ==> is_word(identifier@),
{
    match syn::Ident::parse_any.parse_str(text) {
        Ok(identifier) => Some(identifier.to_string()),
        Err(_) => None,
    }
}

/// Whether a text is a word.
fn check_word(text: &str) -> (r: bool)
    ensures
        r == is_word(text@),
{
    let chars = chars_of(text);
    let raw = chars.len() >= 2 && chars[0] == 'r' && chars[1] == '#';
    let start: usize = if raw {
        2
    } else {
        0
    };
    let ghost rest = without_raw(text@);
    if chars.len() == start || ('0' <= chars[start] && chars[start] <= '9') {
        return false;
    }
    let mut i: usize = start;
    while i < chars.len()
        invariant
            chars@ == text@,
            start <= i <= chars@.len(),
            rest == without_raw(text@),
            rest.len() == chars@.len() - start,
            forall|j: int| 0 <= j < rest.len() ==> rest[j] == chars@[start + j],
            forall|j: int| 0 <= j < i - start ==> is_word_char(#[trigger] rest[j]),
        decreases chars@.len() - i,
    {
        let c = chars[i];
        let blank = c == '\u{85}' || c == '\u{200e}' || c == '\u{200f}' || c == '\u{2028}' || c
            == '\u{2029}' || c == '\u{feff}';
        let good = (c >= '\u{80}' && !blank) || c == '_' || ('0' <= c && c <= '9') || ('a' <= c && c <= 'z') || (
        'A' <= c && c <= 'Z');
        if !good {
            assert(!is_word_char(rest[i - start]));
            return false;
        }
        i += 1;
    }
    true
}

/// Whether a text can name a module, once it is known which identifier it was found
/// to be.
pub fn is_module_name(text: &str, parsed: Option<String>) -> (r: bool)
    ensures
        r == (is_word(text@) && parsed is Some),
{
    check_word(text) && parsed.is_some()
}

/// A file's contents without the byte order mark that they may begin with.
pub open spec fn without_mark(contents: Seq<char>) -> Seq<char> {
    if contents.len() > 0 && contents[0] == '\u{feff}' {
        contents.skip(1)
    } else {
        contents
    }
}

/// The module that holds the given code under the given name.
pub open spec fn module_text(name: Seq<char>, contents: Seq<char>) -> Seq<char> {
    "pub mod "@ + name + " {\n"@ + without_mark(contents) + "\n}"@
}

/// The module that a generated file becomes, once it is known whether its contents
/// are Rust tokens, and which identifier its stem in snake case was found to be.
pub fn module_of(file_stem: &Name, contents: &str, is_tokens: bool, parsed: Option<String>) -> (r:
    Result<String, ImportError>)
    ensures
        match *file_stem {
            Name::Missing => r matches Err(e) && e is NoFileName,
            Name::NotUnicode => r matches Err(e) && e is NotUnicode,
            Name::Text(stem) => if !is_word(snake_case(stem@)) {
                r matches Err(e) && e is NotIdentifier
            } else if !is_tokens {
                r matches Err(e) && e is NotTokens
            } else if parsed is None {
                r matches Err(e) && e is NotIdentifier
            } else {
                r matches Ok(text) && text@ == module_text(snake_case(stem@), contents@)
            },
        },
{
    let stem = match file_stem {
        Name::Missing => return Err(ImportError::NoFileName),
        Name::NotUnicode => return Err(ImportError::NotUnicode),
        Name::Text(stem) => stem,
    };
    let module_name = to_snake_case(stem.as_str());
    if !is_tokens && check_word(module_name.as_str()) {
        return Err(ImportError::NotTokens);
    }
    if !is_module_name(module_name.as_str(), parsed) {
        return Err(ImportError::NotIdentifier);
    }
    let mut text = "pub mod ".to_owned();
    text.append(module_name.as_str());
    text.append(" {\n");
    let chars = chars_of(contents);
    if chars.len() > 0 && chars[0] == '\u{feff}' {
        text.append(contents.substring_char(1, chars.len()));
        assert(contents@.subrange(1, contents@.len() as int) =~= contents@.skip(1));
    } else {
        text.append(contents);
    }
    text.append("\n}");
    Ok(text)
}

/// Whether a generated file becomes the given module, or fails with the given
/// error.
pub open spec fn is_module_of(
    r: Result<Seq<char>, ImportError>,
    file_stem: Name,
    contents: Seq<char>,
) -> bool {
    match file_stem {
        Name::Missing => r matches Err(e) && e is NoFileName,
        Name::NotUnicode => r matches Err(e) && e is NotUnicode,
        Name::Text(stem) => if !is_word(snake_case(stem@)) {
            r matches Err(e) && e is NotIdentifier
        } else {
            match r {
                Ok(text) => {
                    &&& tokenizes(contents)
                    &&& tokenizes(snake_case(stem@))
                    &&& text == module_text(snake_case(stem@), contents)
                },
                Err(e) => e is NotTokens || e is NotIdentifier,
            }
        },
    }
}

/// The identifier that a file's stem in snake case is, if it is one.
fn identifier_of(file_stem: &Name) -> (r: Option<String>)
    ensures
        r is Some ==> {
            &&& file_stem matches Name::Text(stem)
            &&& is_word(snake_case(stem@))
            &&& tokenizes(snake_case(stem@))
        },
{
    if let Name::Text(stem) = file_stem {
        let module_name = to_snake_case(stem.as_str());
        if check_word(module_name.as_str()) {
            return parse_identifier(module_name.as_str());
        }
    }
    None
}

/// The module that a generated file becomes.
pub fn append_path(file_stem: &Name, contents: &str) -> (r: Result<String, ImportError>)
    ensures
        match r {
            Ok(text) => is_module_of(Ok(text@), *file_stem, contents@),
            Err(e) => is_module_of(Err(e), *file_stem, contents@),
        },
{
    module_of(file_stem, contents, lexes(contents), identifier_of(file_stem))
}

/// A file of generated code.
pub struct Generated {
    pub file_stem: Name,
    pub contents: String,
}

/// Whether a file holds tokens and has a name that a module can have.
pub open spec fn is_good(file: Generated) -> bool {
    &&& file.file_stem matches Name::Text(stem)
    &&& is_word(snake_case(stem@))
    &&& tokenizes(snake_case(stem@))
    &&& tokenizes(file.contents@)
}

/// The first `n` texts, one after the other, with a line break between them.
pub open spec fn joined(modules: Seq<Seq<char>>, n: int) -> Seq<char>
    decreases n,
{
    if n <= 0 {
        Seq::empty()
    } else if n == 1 {
        modules[0]
    } else {
        joined(modules, n - 1) + "\n"@ + modules[n - 1]
    }
}

/// The texts of modules that have all become something.
pub open spec fn module_texts(modules: Seq<Result<String, ImportError>>) -> Seq<Seq<char>> {
    modules.map_values(|m: Result<String, ImportError>| m->Ok_0@)
}

/// Modules, one after the other; or the first error among them.
pub fn join_modules(modules: Vec<Result<String, ImportError>>) -> (r: Result<String, ImportError>)
    ensures
        match r {
            Ok(text) => {
                &&& forall|i: int| 0 <= i < modules@.len() ==> (#[trigger] modules@[i]) is Ok
                &&& text@ == joined(module_texts(modules@), modules@.len() as int)
            },
            Err(e) => exists|k: int|
                {
                    &&& 0 <= k < modules@.len()
                    &&& forall|i: int| 0 <= i < k ==> (#[trigger] modules@[i]) is Ok
                    &&& #[trigger] modules@[k] == Err::<String, ImportError>(e)
                },
        },
{
    let ghost all = modules@;
    let ghost texts = module_texts(all);
    let mut rest = modules;
    let mut text = "".to_owned();
    let mut i: usize = 0;
    proof {
        reveal_strlit("");
        assert(text@ =~= Seq::<char>::empty());
    }
    while i < rest.len()
        invariant
            rest@ == all,
            all == modules@,
            texts == module_texts(all),
            0 <= i <= all.len(),
            forall|j: int| 0 <= j < i ==> (#[trigger] all[j]) is Ok,
            text@ == joined(texts, i as int),
        decreases all.len() - i,
    {
        if rest[i].is_err() {
            let failed = rest.remove(i);
            assert(all[i as int] == Err::<String, ImportError>(failed->Err_0));
            return failed;
        }
        if let Ok(module) = &rest[i] {
            if i > 0 {
                text.append("\n");
            }
            let ghost before = text@;
            text.append(module.as_str());
            assert(texts[i as int] == module@);
            assert(i == 0 ==> before + module@ =~= module@);
        }
        i += 1;
    }
    Ok(text)
}

/// The texts of the modules that files become.
pub open spec fn file_modules(files: Seq<Generated>) -> Seq<Seq<char>> {
    files.map_values(
        |file: Generated|
            module_text(snake_case(file.file_stem->Text_0@), file.contents@),
    )
}

/// The modules that generated files become, one after the other; or the error of
/// the first file that becomes none.
pub fn helper_text(files: &Vec<Generated>) -> (r: Result<String, ImportError>)
    ensures
        match r {
            Ok(text) => {
                &&& forall|i: int| 0 <= i < files@.len() ==> is_good(#[trigger] files@[i])
                &&& text@ == joined(file_modules(files@), files@.len() as int)
            },
            Err(e) => exists|k: int|
                {
                    &&& 0 <= k < files@.len()
                    &&& forall|i: int| 0 <= i < k ==> is_good(#[trigger] files@[i])
                    &&& is_module_of(
                        Err(e),
                        (#[trigger] files@[k]).file_stem,
                        files@[k].contents@,
                    )
                },
        },
{
    let mut modules: Vec<Result<String, ImportError>> = Vec::new();
    let mut i: usize = 0;
    while i < files.len()
        invariant
            0 <= i <= files@.len(),
            modules@.len() == i,
            forall|j: int|
                0 <= j < i ==> match #[trigger] modules@[j] {
                    Ok(text) => is_module_of(Ok(text@), files@[j].file_stem, files@[j].contents@),
                    Err(e) => is_module_of(Err(e), files@[j].file_stem, files@[j].contents@),
                },
        decreases files@.len() - i,
    {
        modules.push(append_path(&files[i].file_stem, files[i].contents.as_str()));
        i += 1;
    }
    let ghost made = modules@;
    let r = join_modules(modules);
    proof {
        assert forall|j: int| 0 <= j < made.len() && (#[trigger] made[j]) is Ok implies is_good(
            files@[j],
        ) && made[j]->Ok_0@ == file_modules(files@)[j] by {}
        if r is Err {
            let e = r->Err_0;
            let k = choose|k: int|
                {
                    &&& 0 <= k < made.len()
                    &&& forall|i: int| 0 <= i < k ==> (#[trigger] made[i]) is Ok
                    &&& #[trigger] made[k] == Err::<String, ImportError>(e)
                };
            assert forall|i: int| 0 <= i < k implies is_good(#[trigger] files@[i]) by {
                assert(made[i] is Ok);
            }
            assert(is_module_of(Err(e), files@[k].file_stem, files@[k].contents@));
        } else {
            assert forall|i: int| 0 <= i < files@.len() implies is_good(#[trigger] files@[i]) by {
                assert(made[i] is Ok);
            }
            assert(module_texts(made) =~= file_modules(files@));
        }
    }
    r
}

/// The file that the code is kept in: named by the hash of the patterns, in the
/// output directory.
pub open spec fn helper_path(out_dir: Seq<char>, hash: u64) -> Seq<char> {
    out_dir + "/"@ + crate::strings::decimal(hash as nat) + ".rs"@
}

/// Where the code goes: into a file of its own, where there is an output
/// directory; else straight into the macro's place.
pub fn helper_file(out_dir: Option<&str>, hash: u64) -> (r: Option<String>)
    ensures
        match out_dir {
            Some(dir) => r matches Some(path) && path@ == helper_path(dir@, hash),
            None => r is None,
        },
{
    match out_dir {
        Some(dir) => {
            let mut path = dir.to_owned();
            path.append("/");
            path.append(to_decimal(hash).as_str());
            path.append(".rs");
            Some(path)
        },
        None => None,
    }
}

/// `std::hash::BuildHasher::hash_one` with `std::hash::DefaultHasher`: a hash of the
/// patterns. Which one is left open: it may change with the standard library and with
/// the machine.
#[verifier::external_body]
fn hash_patterns(patterns: &Vec<String>) -> (r: u64)
{
    std::hash::BuildHasherDefault::<std::hash::DefaultHasher>::default().hash_one(patterns)
}

/// Where the code for some patterns goes.
pub fn pattern_file(out_dir: Option<&str>, patterns: &Vec<String>) -> (r: Option<String>)
    ensures
        match out_dir {
            Some(dir) => r matches Some(path) && exists|hash: u64|
                path@ == #[trigger] helper_path(dir@, hash),
            None => r is None,
        },
{
    helper_file(out_dir, hash_patterns(patterns))
}

} // verus!
