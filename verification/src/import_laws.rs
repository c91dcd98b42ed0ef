//! What holds of every import.
use crate::glob::{is_glob, is_tame, occurrences};
use crate::import::{
    begins_with_literal, file_modules, file_paths, helper_path, is_accepted, is_flat, is_good, is_literal_list,
    is_module_of, is_schema_variable, is_search_for, is_word, is_word_char, joined, module_text,
    module_texts, place, schema_directories, search_directories, snake_case, texts, tokenizes,
    unrooted, without_raw, Entry, Generated, ImportError, Importer, Name, Place, Progress, Search,
};
use crate::strings::{digits_value, law_decimal, law_leading};
use vstd::prelude::*;

verus! {

/// The texts of strings are theirs, one by one.
pub proof fn law_texts(strings: Seq<String>)
    ensures
        texts(strings).len() == strings.len(),
        forall|i: int| 0 <= i < strings.len() ==> #[trigger] texts(strings)[i] == strings[i]@,
{
}

/// Slashes before a pattern say only where it is searched: behind them it is the
/// same expression.
pub proof fn law_slashes_before_a_pattern(n: nat, rest: Seq<char>)
    requires
        rest.len() > 0 ==> rest[0] != '/',
    ensures
        unrooted(Seq::new(n, |i: int| '/') + rest) == rest,
{
    law_leading('/', n, rest);
}

/// A pattern that begins with a slash is searched in the search paths alone, in
/// their order, and any other in the manifest's directory alone.
pub proof fn law_where_patterns_are_searched(
    pattern: Seq<char>,
    searchpaths: Seq<Seq<char>>,
    manifest: Seq<char>,
)
    ensures
        "/"@.is_prefix_of(pattern) ==> search_directories(pattern, searchpaths, manifest)
            == searchpaths,
        !"/"@.is_prefix_of(pattern) ==> {
            let directories = search_directories(pattern, searchpaths, manifest);
            directories.len() == 1 && directories[0] == manifest
        },
{
    reveal_strlit("/");
    if "/"@.is_prefix_of(pattern) {
        assert("/"@[0] == pattern.subrange(0, 1)[0]);
    } else if pattern.len() > 0 && pattern[0] == '/' {
        assert("/"@ =~= pattern.subrange(0, 1));
    }
}

/// The search for a pattern is for the pattern's own expression, in the pattern's own
/// directories.
pub proof fn law_searches(
    search: Search,
    n: nat,
    rest: Seq<char>,
    searchpaths: Seq<Seq<char>>,
    manifest: Seq<char>,
)
    requires
        rest.len() > 0 ==> rest[0] != '/',
        is_search_for(search, Seq::new(n, |i: int| '/') + rest, searchpaths, manifest),
    ensures
        search.expression@ == rest,
        n > 0 ==> texts(search.directories@) == searchpaths,
        n == 0 ==> texts(search.directories@) == seq![manifest],
        crate::glob::leading_path(rest).is_prefix_of(texts(search.prefix@)),
        (forall|i: int|
            0 <= i < rest.len() ==> {
                let c = #[trigger] rest[i];
                c != '(' && c != '[' && c != '{' && c != '<' && c != '\\'
            }) ==> texts(search.prefix@) == crate::glob::leading_path(rest),
{
    law_slashes_before_a_pattern(n, rest);
    let pattern = Seq::new(n, |i: int| '/') + rest;
    if n == 0 {
        assert(pattern =~= rest);
    } else {
        assert(pattern[0] == '/');
    }
}

/// A pattern is accepted just where its expression is a glob expression that can be
/// examined, whatever slashes stand before it.
pub proof fn law_accepted_patterns(n: nat, rest: Seq<char>)
    requires
        rest.len() > 0 ==> rest[0] != '/',
    ensures
        is_accepted(Seq::new(n, |i: int| '/') + rest) <==> is_tame(rest) && is_glob(rest),
{
    law_slashes_before_a_pattern(n, rest);
}

/// The variables that name schema directories are those from `DEP_` to `_SCHEMA_DIR`.
pub proof fn law_schema_variables(middle: Seq<char>, key: Seq<char>)
    ensures
        is_schema_variable("DEP_"@ + middle + "_SCHEMA_DIR"@),
        is_schema_variable(key) <==> "DEP_"@.is_prefix_of(key) && "_SCHEMA_DIR"@.is_suffix_of(key),
{
    let s = "DEP_"@ + middle + "_SCHEMA_DIR"@;
    assert(s.subrange(0, "DEP_"@.len() as int) =~= "DEP_"@);
    assert(s.subrange(s.len() - "_SCHEMA_DIR"@.len(), s.len() as int) =~= "_SCHEMA_DIR"@);
}

/// The schema directories of variables: each variable counts by itself, and those of
/// two lists are those of the first, then those of the second.
pub proof fn law_schema_directories(
    first: Seq<(String, String)>,
    second: Seq<(String, String)>,
    key: String,
    value: String,
)
    ensures
        schema_directories(seq![(key, value)], 1) == if "DEP_"@.is_prefix_of(key@)
            && "_SCHEMA_DIR"@.is_suffix_of(key@) {
            seq![value@]
        } else {
            Seq::empty()
        },
        schema_directories(first + second, (first + second).len() as int) == schema_directories(
            first,
            first.len() as int,
        ) + schema_directories(second, second.len() as int),
{
    reveal_with_fuel(schema_directories, 2);
    assert(schema_directories(seq![(key, value)], 1) =~= if is_schema_variable(key@) {
        seq![value@]
    } else {
        Seq::empty()
    });
    lemma_schema_directories(first, second, (first + second).len() as int);
}

proof fn lemma_schema_directories(
    first: Seq<(String, String)>,
    second: Seq<(String, String)>,
    n: int,
)
    requires
        0 <= n <= first.len() + second.len(),
    ensures
        n <= first.len() ==> schema_directories(first + second, n) == schema_directories(first, n),
        n >= first.len() ==> schema_directories(first + second, n) == schema_directories(
            first,
            first.len() as int,
        ) + schema_directories(second, n - first.len()),
    decreases n,
{
    let all = first + second;
    if n > 0 {
        lemma_schema_directories(first, second, n - 1);
        if n <= first.len() {
            assert(all[n - 1] == first[n - 1]);
        } else {
            assert(all[n - 1] == second[n - 1 - first.len()]);
        }
    }
    if n >= first.len() {
        assert(schema_directories(all, n) =~= schema_directories(first, first.len() as int)
            + schema_directories(second, n - first.len()));
    }
}

/// The files among entries: a file counts, anything else does not, and those of two
/// lists are those of the first, then those of the second.
pub proof fn law_file_paths<P>(first: Seq<Entry<P>>, second: Seq<Entry<P>>, path: P)
    ensures
        file_paths(seq![Entry { path, is_file: true }], 1) == seq![path],
        file_paths(seq![Entry { path, is_file: false }], 1).len() == 0,
        file_paths(first + second, (first + second).len() as int) == file_paths(
            first,
            first.len() as int,
        ) + file_paths(second, second.len() as int),
{
    reveal_with_fuel(file_paths, 2);
    assert(file_paths(seq![Entry { path, is_file: true }], 1) =~= seq![path]);
    lemma_file_paths(first, second, (first + second).len() as int);
}

proof fn lemma_file_paths<P>(first: Seq<Entry<P>>, second: Seq<Entry<P>>, n: int)
    requires
        0 <= n <= first.len() + second.len(),
    ensures
        n <= first.len() ==> file_paths(first + second, n) == file_paths(first, n),
        n >= first.len() ==> file_paths(first + second, n) == file_paths(first, first.len() as int)
            + file_paths(second, n - first.len()),
    decreases n,
{
    let all = first + second;
    if n > 0 {
        lemma_file_paths(first, second, n - 1);
        if n <= first.len() {
            assert(all[n - 1] == first[n - 1]);
        } else {
            assert(all[n - 1] == second[n - 1 - first.len()]);
        }
    }
    if n >= first.len() {
        assert(file_paths(all, n) =~= file_paths(first, first.len() as int) + file_paths(
            second,
            n - first.len(),
        ));
    }
}

/// A search begins with nothing done and nothing found.
pub proof fn law_searches_begin<P>(
    patterns: Seq<Seq<char>>,
    searchpaths: Seq<Seq<char>>,
    manifest: Seq<char>,
)
    ensures
        ({
            let begun = Progress::<P>::begun(patterns, searchpaths, manifest);
            &&& begun.patterns == patterns
            &&& begun.searchpaths == searchpaths
            &&& begun.manifest == manifest
            &&& begun.done == 0
            &&& begun.files.len() == 0
        }),
{
}

/// Once a pattern was found to match something, it is done, the files among that are
/// found, behind those that were, and everything else stays.
pub proof fn law_searches_go_on<P>(progress: Progress<P>, entries: Seq<Entry<P>>)
    ensures
        ({
            let after = progress.after(entries);
            &&& after.patterns == progress.patterns
            &&& after.searchpaths == progress.searchpaths
            &&& after.manifest == progress.manifest
            &&& after.done == progress.done + 1
            &&& progress.files.is_prefix_of(after.files)
            &&& after.files.skip(progress.files.len() as int) == file_paths(
                entries,
                entries.len() as int,
            )
        }),
{
    let after = progress.after(entries);
    assert(after.files.subrange(0, progress.files.len() as int) =~= progress.files);
    assert(after.files.skip(progress.files.len() as int) =~= file_paths(
        entries,
        entries.len() as int,
    ));
}

/// A search in which no more patterns are done than there are can go on.
pub proof fn law_well_formed_searches<P>(importer: Importer<P>)
    ensures
        importer.wf() <==> importer@.done <= importer@.patterns.len(),
{
}

/// A module holds a file's contents whole, under the given name, between braces; but
/// for a byte order mark that the contents begin with.
pub proof fn law_modules_hold_the_contents(name: Seq<char>, contents: Seq<char>)
    ensures
        contents.len() == 0 || contents[0] != '\u{feff}' ==> module_text(name, contents)
            == "pub mod "@ + name + " {\n"@ + contents + "\n}"@,
        module_text(name, seq!['\u{feff}'] + contents) == "pub mod "@ + name + " {\n"@ + contents
            + "\n}"@,
{
    assert((seq!['\u{feff}'] + contents).skip(1) =~= contents);
}

/// Two files whose contents do not begin with a mark become the same module only
/// where their contents are the same.
pub proof fn law_modules_lose_nothing(name: Seq<char>, a: Seq<char>, b: Seq<char>)
    requires
        a.len() == 0 || a[0] != '\u{feff}',
        b.len() == 0 || b[0] != '\u{feff}',
        module_text(name, a) == module_text(name, b),
    ensures
        a == b,
{
    law_modules_hold_the_contents(name, a);
    law_modules_hold_the_contents(name, b);
    let head = "pub mod "@ + name + " {\n"@;
    let text = module_text(name, a);
    assert(text.len() == head.len() + a.len() + "\n}"@.len());
    assert(text.len() == head.len() + b.len() + "\n}"@.len());
    assert(text.subrange(head.len() as int, (head.len() + a.len()) as int) =~= a);
    assert(text.subrange(head.len() as int, (head.len() + b.len()) as int) =~= b);
}

/// A file becomes a module only where it has a stem that can name one and contents
/// that are Rust tokens; the module then has the stem in snake case as its name, and
/// holds the contents. A missing stem, and one that is no Unicode text or no word in
/// snake case, is an error of its own.
pub proof fn law_files_become_modules(
    r: Result<Seq<char>, ImportError>,
    file_stem: Name,
    contents: Seq<char>,
)
    requires
        is_module_of(r, file_stem, contents),
    ensures
        file_stem is Missing <==> (r matches Err(e) && e is NoFileName),
        file_stem is NotUnicode <==> (r matches Err(e) && e is NotUnicode),
        file_stem matches Name::Text(stem) ==> {
            &&& !is_word(snake_case(stem@)) ==> (r matches Err(e) && e is NotIdentifier)
            &&& r matches Ok(text) ==> {
                &&& is_word(snake_case(stem@))
                &&& tokenizes(contents)
                &&& contents.len() == 0 || contents[0] != '\u{feff}' ==> text == "pub mod "@
                    + snake_case(stem@) + " {\n"@ + contents + "\n}"@
                &&& contents.len() > 0 && contents[0] == '\u{feff}' ==> text == "pub mod "@
                    + snake_case(stem@) + " {\n"@ + contents.subrange(1, contents.len() as int)
                    + "\n}"@
            }
            &&& r matches Err(e) ==> e is NotTokens || e is NotIdentifier
        },
{
    if contents.len() > 0 && contents[0] == '\u{feff}' {
        assert(contents.skip(1) =~= contents.subrange(1, contents.len() as int));
    }
}

/// What is made of letters, digits and underscores, with no digit first, is a word, also
/// behind `r#`; every character beyond ASCII that is no white space or mark to a lexer
/// may be such a letter.
pub proof fn law_identifiers_are_words(text: Seq<char>)
    requires
        text.len() > 0,
        !('0' <= text[0] <= '9'),
        forall|i: int|
            0 <= i < text.len() ==> {
                let c = #[trigger] text[i];
                ||| 'a' <= c <= 'z'
                ||| 'A' <= c <= 'Z'
                ||| '0' <= c <= '9'
                ||| c == '_'
                ||| c > '\u{7f}' && c != '\u{85}' && c != '\u{200e}' && c != '\u{200f}' && c
                    != '\u{2028}' && c != '\u{2029}' && c != '\u{feff}'
            },
    ensures
        is_word(text),
        is_word(seq!['r', '#'] + text),
{
    assert(text.len() >= 2 ==> text[1] != '#');
    assert(without_raw(text) == text);
    let raw = seq!['r', '#'] + text;
    assert(raw.skip(2) =~= text);
    assert(without_raw(raw) == text);
}

/// A word holds no ASCII character but letters, digits and underscores; a number sign
/// only behind an `r` that it begins with.
pub proof fn law_words_hold_no_other_characters(text: Seq<char>, i: int)
    requires
        is_word(text),
        0 <= i < text.len(),
        text[i] < '\u{80}',
    ensures
        ({
            let c = text[i];
            ||| 'a' <= c <= 'z'
            ||| 'A' <= c <= 'Z'
            ||| '0' <= c <= '9'
            ||| c == '_'
            ||| (c == '#' && i == 1 && text[0] == 'r')
        }),
        text[0] < '0' || text[0] > '9',
{
    if text.len() >= 2 && text[0] == 'r' && text[1] == '#' {
        if i >= 2 {
            assert(without_raw(text)[i - 2] == text[i]);
            assert(is_word_char(without_raw(text)[i - 2]));
        }
    } else {
        assert(without_raw(text)[i] == text[i]);
        assert(is_word_char(without_raw(text)[i]));
    }
}

/// Texts are joined by line breaks: none give nothing, one gives itself, and two lists
/// give those of the first, a line break, and those of the second.
pub proof fn law_joined(first: Seq<Seq<char>>, second: Seq<Seq<char>>, text: Seq<char>)
    ensures
        joined(Seq::empty(), 0).len() == 0,
        joined(seq![text], 1) == text,
        first.len() > 0 && second.len() > 0 ==> joined(
            first + second,
            (first + second).len() as int,
        ) == joined(first, first.len() as int) + "\n"@ + joined(second, second.len() as int),
{
    if first.len() > 0 && second.len() > 0 {
        lemma_joined(first, second, second.len() as int);
    }
}

proof fn lemma_joined_of_prefix(first: Seq<Seq<char>>, second: Seq<Seq<char>>, n: int)
    requires
        0 <= n <= first.len(),
    ensures
        joined(first + second, n) == joined(first, n),
    decreases n,
{
    if n > 0 {
        lemma_joined_of_prefix(first, second, n - 1);
        assert((first + second)[n - 1] == first[n - 1]);
        assert((first + second)[0] == first[0]);
    }
}

proof fn lemma_joined(first: Seq<Seq<char>>, second: Seq<Seq<char>>, n: int)
    requires
        first.len() > 0,
        0 < n <= second.len(),
    ensures
        joined(first + second, first.len() + n) == joined(first, first.len() as int) + "\n"@ + joined(
            second,
            n,
        ),
    decreases n,
{
    let all = first + second;
    assert(all[first.len() + n - 1] == second[n - 1]);
    if n == 1 {
        lemma_joined_of_prefix(first, second, first.len() as int);
    } else {
        lemma_joined(first, second, n - 1);
        assert(joined(first, first.len() as int) + "\n"@ + joined(second, n - 1) + "\n"@ + second[n
            - 1] =~= joined(first, first.len() as int) + "\n"@ + joined(second, n));
    }
}

/// Modules that have all become something have their own texts.
pub proof fn law_module_texts(modules: Seq<Result<String, ImportError>>)
    ensures
        module_texts(modules).len() == modules.len(),
        forall|i: int|
            0 <= i < modules.len() && (#[trigger] modules[i]) is Ok ==> module_texts(modules)[i]
                == modules[i]->Ok_0@,
{
}

/// Files become one module each, in their order, named after the file and holding its
/// contents.
pub proof fn law_file_modules(files: Seq<Generated>)
    ensures
        file_modules(files).len() == files.len(),
        forall|i: int|
            0 <= i < files.len() ==> ((#[trigger] files[i]).file_stem matches Name::Text(stem)
                ==> file_modules(files)[i] == module_text(snake_case(stem@), files[i].contents@)),
{
}

/// A file that becomes a module has a name that is a word, and holds tokens.
pub proof fn law_good_files(file: Generated)
    requires
        is_good(file),
    ensures
        file.file_stem matches Name::Text(stem) && is_word(snake_case(stem@)) && tokenizes(
            snake_case(stem@),
        ),
        tokenizes(file.contents@),
{
}

/// The file that code is kept in is in the output directory, is named by the hash in
/// decimal digits, and is a Rust file. So different hashes have different files.
pub proof fn law_helper_path(out_dir: Seq<char>, hash: u64, other: u64)
    ensures
        helper_path(out_dir, hash) == out_dir + "/"@ + crate::strings::decimal(hash as nat) + ".rs"@,
        helper_path(out_dir, hash) == helper_path(out_dir, other) ==> hash == other,
{
    if helper_path(out_dir, hash) == helper_path(out_dir, other) {
        let a = crate::strings::decimal(hash as nat);
        let b = crate::strings::decimal(other as nat);
        let head = out_dir + "/"@;
        let whole = helper_path(out_dir, hash);
        assert(whole.len() == head.len() + a.len() + ".rs"@.len());
        assert(whole.len() == head.len() + b.len() + ".rs"@.len());
        assert(whole.subrange(head.len() as int, (head.len() + a.len()) as int) =~= a);
        assert(whole.subrange(head.len() as int, (head.len() + b.len()) as int) =~= b);
        law_decimal(hash as nat);
        law_decimal(other as nat);
        assert(digits_value(a) == digits_value(b));
    }
}

/// However many brackets a string literal holds, it is not nested.
pub proof fn law_literals_are_flat(body: Seq<char>)
    requires
        forall|i: int| 0 <= i < body.len() ==> #[trigger] body[i] != '"' && body[i] != '\\',
    ensures
        is_literal_list(seq!['"'] + body + seq!['"']),
        is_flat(seq!['"'] + body + seq!['"']),
{
    let text = seq!['"'] + body + seq!['"'];
    reveal_with_fuel(place, 2);
    assert(place(text, 1) == Place::Quoted);
    lemma_quoted(text, body, body.len() as int);
    assert(text[text.len() - 1] == '"');
}

proof fn lemma_quoted(text: Seq<char>, body: Seq<char>, n: int)
    requires
        text == seq!['"'] + body + seq!['"'],
        forall|i: int| 0 <= i < body.len() ==> #[trigger] body[i] != '"' && body[i] != '\\',
        0 <= n <= body.len(),
        place(text, 1) == Place::Quoted,
    ensures
        place(text, n + 1) == Place::Quoted,
    decreases n,
{
    if n > 0 {
        lemma_quoted(text, body, n - 1);
        assert(text[n] == body[n - 1]);
    }
}

/// Two lists of literals with a comma between them are one list.
pub proof fn law_literal_lists_compose(first: Seq<char>, second: Seq<char>)
    requires
        is_literal_list(first),
        is_literal_list(second),
    ensures
        is_literal_list(first + seq![','] + second),
        is_flat(first + seq![','] + second),
{
    let all = first + seq![','] + second;
    let n = first.len() as int;
    lemma_same_place(first, all, n);
    assert(all[n] == ',');
    assert(place(all, n + 1) == Place::Between);
    lemma_place_from(second, all, n + 1, second.len() as int);
}

proof fn lemma_same_place(a: Seq<char>, b: Seq<char>, n: int)
    requires
        0 <= n <= a.len(),
        n <= b.len(),
        forall|i: int| 0 <= i < n ==> #[trigger] a[i] == b[i],
    ensures
        place(a, n) == place(b, n),
    decreases n,
{
    if n > 0 {
        lemma_same_place(a, b, n - 1);
        assert(a[n - 1] == b[n - 1]);
    }
}

proof fn lemma_place_from(part: Seq<char>, all: Seq<char>, start: int, n: int)
    requires
        0 <= n <= part.len(),
        0 <= start,
        start + part.len() <= all.len(),
        place(all, start) == Place::Between,
        forall|i: int| 0 <= i < part.len() ==> #[trigger] part[i] == all[start + i],
    ensures
        place(all, start + n) == place(part, n),
    decreases n,
{
    if n > 0 {
        lemma_place_from(part, all, start, n - 1);
        assert(part[n - 1] == all[start + n - 1]);
    }
}

/// However many brackets a raw string literal holds, it is not nested.
pub proof fn law_raw_literals_are_flat(body: Seq<char>)
    requires
        forall|i: int| 0 <= i < body.len() ==> #[trigger] body[i] != '"',
    ensures
        is_flat(seq!['r', '"'] + body + seq!['"']),
{
    let text = seq!['r', '"'] + body + seq!['"'];
    reveal_with_fuel(place, 3);
    assert(text[0] == 'r' && text[1] == '"');
    assert(place(text, 2) == Place::Raw(0));
    lemma_raw(text, body, body.len() as int);
    assert(text[text.len() - 1] == '"');
}

proof fn lemma_raw(text: Seq<char>, body: Seq<char>, n: int)
    requires
        text == seq!['r', '"'] + body + seq!['"'],
        forall|i: int| 0 <= i < body.len() ==> #[trigger] body[i] != '"',
        0 <= n <= body.len(),
        place(text, 2) == Place::Raw(0),
    ensures
        place(text, n + 2) == Place::Raw(0),
    decreases n,
{
    if n > 0 {
        lemma_raw(text, body, n - 1);
        assert(text[n + 1] == body[n - 1]);
    }
}

/// A text with no more than 256 opening brackets is not nested too deeply.
pub proof fn law_texts_with_few_brackets_are_flat(text: Seq<char>)
    requires
        occurrences(text, '(') + occurrences(text, '[') + occurrences(text, '{') <= 256,
    ensures
        is_flat(text),
{
}

/// How often a character occurs: not in an empty text, once in itself, and in two texts
/// as often as in both.
pub proof fn law_occurrences(first: Seq<char>, second: Seq<char>, c: char, d: char)
    ensures
        occurrences(Seq::empty(), c) == 0,
        occurrences(seq![d], c) == if c == d {
            1nat
        } else {
            0nat
        },
        occurrences(first + second, c) == occurrences(first, c) + occurrences(second, c),
    decreases second.len(),
{
    assert(seq![d].drop_last() =~= Seq::<char>::empty());
    reveal_with_fuel(occurrences, 2);
    if second.len() == 0 {
        assert(first + second =~= first);
    } else {
        law_occurrences(first, second.drop_last(), c, d);
        assert((first + second).drop_last() =~= first + second.drop_last());
    }
}

/// A text that begins with a quotation mark or an `r`, and holds no carriage return, is
/// one whose literals are told.
pub proof fn law_texts_that_begin_with_literals(rest: Seq<char>)
    requires
        forall|i: int| 0 <= i < rest.len() ==> #[trigger] rest[i] != '\r',
    ensures
        begins_with_literal(seq!['"'] + rest),
        begins_with_literal(seq!['r'] + rest),
{
}

/// Where a text is, some characters later, if none of them ends what it is in.
proof fn lemma_place_stays(text: Seq<char>, start: int, n: int, here: Place)
    requires
        0 <= start,
        0 <= n,
        start + n <= text.len(),
        place(text, start) == here,
        here == Place::Quoted || here is Raw,
        forall|i: int|
            start <= i < start + n ==> #[trigger] text[i] != '"' && (here is Raw || text[i]
                != '\\'),
    ensures
        place(text, start + n) == here,
    decreases n,
{
    if n > 0 {
        lemma_place_stays(text, start, n - 1, here);
        assert(text[start + n - 1] != '"');
    }
}

/// An escape in a string literal does not end it, whatever is escaped.
pub proof fn law_escapes_do_not_end_literals(a: Seq<char>, c: char, b: Seq<char>)
    requires
        forall|i: int| 0 <= i < a.len() ==> #[trigger] a[i] != '"' && a[i] != '\\',
        forall|i: int| 0 <= i < b.len() ==> #[trigger] b[i] != '"' && b[i] != '\\',
    ensures
        is_literal_list(seq!['"'] + a + seq!['\\', c] + b + seq!['"']),
        is_flat(seq!['"'] + a + seq!['\\', c] + b + seq!['"']),
{
    let text = seq!['"'] + a + seq!['\\', c] + b + seq!['"'];
    let n = a.len() as int;
    let m = b.len() as int;
    reveal_with_fuel(place, 2);
    assert(text[0] == '"');
    assert(place(text, 1) == Place::Quoted);
    assert forall|i: int| 1 <= i < 1 + n implies #[trigger] text[i] != '"' && text[i] != '\\' by {
        assert(text[i] == a[i - 1]);
    }
    lemma_place_stays(text, 1, n, Place::Quoted);
    assert(text[n + 1] == '\\');
    assert(place(text, n + 2) == Place::Escaped);
    assert(place(text, n + 3) == Place::Quoted);
    assert forall|i: int| n + 3 <= i < n + 3 + m implies #[trigger] text[i] != '"' && text[i]
        != '\\' by {
        assert(text[i] == b[i - n - 3]);
    }
    lemma_place_stays(text, n + 3, m, Place::Quoted);
    assert(text[n + 3 + m] == '"');
    assert(text.len() == n + 4 + m);
}

/// A raw string literal ends with a quotation mark and as many number signs as it began
/// with, and not with a quotation mark alone.
pub proof fn law_raw_literals_end_with_their_signs(k: nat, a: Seq<char>, b: Seq<char>)
    requires
        1 <= k <= 255,
        forall|i: int| 0 <= i < a.len() ==> #[trigger] a[i] != '"',
        forall|i: int| 0 <= i < b.len() ==> #[trigger] b[i] != '"',
        b.len() > 0 && b[0] != '#',
    ensures
        is_literal_list(
            seq!['r'] + Seq::new(k, |i: int| '#') + seq!['"'] + a + seq!['"'] + b + seq!['"']
                + Seq::new(k, |i: int| '#'),
        ),
{
    let signs = Seq::new(k, |i: int| '#');
    let text = seq!['r'] + signs + seq!['"'] + a + seq!['"'] + b + seq!['"'] + signs;
    let s = k as int;
    let n = a.len() as int;
    let m = b.len() as int;
    reveal_with_fuel(place, 2);
    assert(text[0] == 'r');
    assert(place(text, 1) == Place::RawBegin(0));
    lemma_signs_begin(text, k as u8, s);
    assert(text[s + 1] == '"');
    let raw = Place::Raw(k as u8);
    assert(place(text, s + 2) == raw);
    assert forall|i: int| s + 2 <= i < s + 2 + n implies #[trigger] text[i] != '"' by {
        assert(text[i] == a[i - s - 2]);
    }
    lemma_place_stays(text, s + 2, n, raw);
    let q = s + 2 + n;
    assert(text[q] == '"');
    assert(place(text, q + 1) == Place::RawEnd(k as u8, 0));
    assert(text[q + 1] == b[0]);
    assert(place(text, q + 2) == raw);
    assert forall|i: int| q + 2 <= i < q + 1 + m implies #[trigger] text[i] != '"' by {
        assert(text[i] == b[i - q - 1]);
    }
    lemma_place_stays(text, q + 2, m - 1, raw);
    let e = q + 1 + m;
    assert(text[e] == '"');
    assert(place(text, e + 1) == Place::RawEnd(k as u8, 0));
    assert forall|i: int| e + 1 <= i < e + 1 + s implies #[trigger] text[i] == '#' by {}
    lemma_signs_end(text, k as u8, e + 1, s);
    assert(text.len() == e + 1 + s);
}

proof fn lemma_signs_begin(text: Seq<char>, k: u8, n: int)
    requires
        0 <= n <= k,
        k + 1 <= text.len(),
        place(text, 1) == Place::RawBegin(0),
        forall|i: int| 1 <= i < 1 + k ==> #[trigger] text[i] == '#',
    ensures
        place(text, 1 + n) == Place::RawBegin(n as u8),
    decreases n,
{
    if n > 0 {
        lemma_signs_begin(text, k, n - 1);
        assert(text[n] == '#');
    }
}

proof fn lemma_signs_end(text: Seq<char>, k: u8, start: int, n: int)
    requires
        1 <= k,
        0 <= n <= k,
        0 <= start,
        start + k <= text.len(),
        place(text, start) == Place::RawEnd(k, 0),
        forall|i: int| start <= i < start + k ==> #[trigger] text[i] == '#',
    ensures
        n < k ==> place(text, start + n) == Place::RawEnd(k, n as u8),
        n == k ==> place(text, start + n) == Place::Behind,
    decreases n,
{
    if n > 0 {
        lemma_signs_end(text, k, start, n - 1);
        assert(text[start + n - 1] == '#');
    }
}

/// A bracket between literals is in no list of literals, whatever follows.
pub proof fn law_brackets_leave_lists(before: Seq<char>, bracket: char, rest: Seq<char>)
    requires
        is_literal_list(before),
        bracket == '(' || bracket == '[' || bracket == '{',
    ensures
        !is_literal_list(before + seq![bracket] + rest),
{
    let text = before + seq![bracket] + rest;
    let n = before.len() as int;
    lemma_same_place(before, text, n);
    assert(text[n] == bracket);
    assert(place(text, n + 1) == Place::Outside);
    lemma_outside(text, n + 1, text.len() as int);
}

proof fn lemma_outside(text: Seq<char>, start: int, n: int)
    requires
        0 <= start <= n,
        place(text, start) == Place::Outside,
    ensures
        place(text, n) == Place::Outside,
    decreases n,
{
    if n > start {
        lemma_outside(text, start, n - 1);
    }
}

} // verus!
