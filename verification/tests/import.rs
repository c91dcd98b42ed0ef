use capnp::import::{
    append_path, helper_file, helper_text, import_patterns, is_generated,
    is_module_name, join_modules, module_of, pattern_file, patterns_of, plan_search, search_below, search_paths, Action, Entry, Generated, ImportError,
    Importer, Name,
};
use std::path::PathBuf;

fn vars(pairs: &[(&str, &str)]) -> Vec<(String, String)> {
    pairs.iter().map(|(k, v)| (k.to_string(), v.to_string())).collect()
}

fn strings(items: &[&str]) -> Vec<String> {
    items.iter().map(|s| s.to_string()).collect()
}

fn file(path: &str) -> Entry<String> {
    Entry { path: path.to_string(), is_file: true }
}

/// The files of the project at `/capnp-import`.
fn project() -> Vec<&'static str> {
    vec![
        "/capnp-import/tests/example.capnp",
        "/capnp-import/tests/folder-test/foo.capnp",
        "/capnp-import/src/lib.rs",
    ]
}

/// What a search finds in the project. Of wildcards, only a `*` that stands for
/// a file's stem is known.
fn walk(directory: &str, prefix: &[String], expression: &str) -> Vec<Entry<String>> {
    let mut root = PathBuf::from(directory);
    for name in prefix {
        if name == ".." {
            root.pop();
        } else {
            root.push(name);
        }
    }
    let rest: String = expression
        .split('/')
        .skip(prefix.len())
        .collect::<Vec<&str>>()
        .join("/");
    project()
        .into_iter()
        .filter(|path| {
            let path = PathBuf::from(path);
            match rest.strip_prefix('*') {
                Some(end) => {
                    path.parent() == Some(root.as_path())
                        && path.to_string_lossy().ends_with(end)
                }
                None => path == root.join(&rest),
            }
        })
        .map(file)
        .collect()
}

/// Runs a whole import in the project, with a compiler that turns every schema
/// into a small module.
fn process_inner(patterns: &[&str], variables: &[(&str, &str)]) -> Result<String, ImportError> {
    let mut importer: Importer<String> =
        Importer::start(strings(patterns), &vars(variables), "/capnp-import".to_string())?;
    loop {
        match importer.next_action()? {
            Action::Walk(search) => {
                let mut entries: Vec<Entry<String>> = vec![];
                for directory in &search.directories {
                    entries.extend(walk(directory, &search.prefix, &search.expression));
                }
                importer.walked(entries)?;
            }
            Action::Run => break,
        }
    }
    let mut generated: Vec<Generated> = vec![];
    for path in importer.into_files() {
        let path = PathBuf::from(path);
        let stem: String = path.file_stem().unwrap().to_string_lossy().into_owned() + "_capnp";
        let file_name = Name::Text(stem.clone() + ".rs");
        if is_generated(true, &file_name)? {
            generated.push(Generated {
                file_stem: Name::Text(stem),
                contents: "pub struct Owned;".to_string(),
            });
        }
    }
    helper_text(&generated)
}

#[test]
fn basic_file_test() {
    let contents = process_inner(&["tests/example.capnp"], &[]).unwrap();
    assert!(contents.starts_with("pub mod example_capnp {"));
    assert!(contents.ends_with('}'));
}

#[test]
fn relative_file_test() {
    // NOTE: if the project name changes this test will have to be changed
    let contents = process_inner(&["../capnp-import/tests/example.capnp"], &[]).unwrap();
    assert!(contents.starts_with("pub mod example_capnp {"));
    assert!(contents.ends_with('}'));
}

#[test]
fn glob_test() {
    let contents = process_inner(&["tests/folder-test/*.capnp"], &[]).unwrap();
    let tests_module: syn::ItemMod = syn::parse_str(&contents).unwrap();
    assert_eq!(tests_module.ident, "foo_capnp");
}

#[should_panic]
#[test]
fn compile_fail_test() {
    let _ = process_inner(&["*********//*.capnp*"], &[]).unwrap();
}

#[test]
fn wax_partition_handles_parent_dir() {
    let search = plan_search("../schemas/**/*.capnp", &vec![], &"/capnp-import".to_string()).unwrap();
    let search_prefix: PathBuf = search.prefix.iter().collect();
    assert_eq!(search_prefix, PathBuf::new().join("..").join("schemas"));
    let (prefix, _glob) = wax::Glob::new("../schemas/**/*.capnp").unwrap().partition();
    assert_eq!(prefix, search_prefix);
}

#[test]
fn search_test() {
    let contents = process_inner(
        &["/folder-test/*.capnp"],
        &[("DEP_TEST_SCHEMA_DIR", "/capnp-import/tests")],
    )
    .unwrap();
    let tests_module: syn::ItemMod = syn::parse_str(&contents).unwrap();
    assert_eq!(tests_module.ident, "foo_capnp");
}

#[should_panic]
#[test]
fn search_fail2_test() {
    // Should fail because DEP_TEST_WRONG_DIR is in the wrong format
    let contents =
        process_inner(&["/folder-test/*.capnp"], &[("DEP_TEST_WRONG_DIR", "/capnp-import/tests")]);
    contents.unwrap();
}

#[should_panic]
#[test]
fn search_failure_test() {
    // This should fail because the path doesn't start with '/'
    let contents =
        process_inner(&["folder-test/*.capnp"], &[("DEP_TEST_SCHEMA_DIR", "/capnp-import/tests")]);
    contents.unwrap();
}

#[should_panic]
#[test]
fn partial_failure_test() {
    // This should fail because the second path doesn't start with '/'
    let contents = process_inner(
        &["tests/example.capnp", "folder-test/*.capnp"],
        &[("DEP_TEST_SCHEMA_DIR", "/capnp-import/tests")],
    );
    contents.unwrap();
}

#[test]
fn eventual_success_test_empty() {
    // This should succeed despite DEP_IGNORE_SCHEMA_DIR being empty
    let contents = process_inner(
        &["tests/example.capnp", "/folder-test/*.capnp"],
        &[
            ("DEP_TEST_SCHEMA_DIR", "/capnp-import/tests"),
            ("DEP_IGNORE_SCHEMA_DIR", "/capnp-import/tests_but_emptier"),
        ],
    );
    contents.unwrap();
}

#[test]
fn eventual_success_test_no_matches() {
    // This should succeed despite DEP_EMPTY_SCHEMA_DIR being a folder with no matches
    let contents = process_inner(
        &["tests/example.capnp", "/folder-test/*.capnp"],
        &[
            ("DEP_TEST_SCHEMA_DIR", "/capnp-import/tests"),
            ("DEP_EMPTY_SCHEMA_DIR", "/capnp-import/src"),
        ],
    )
    .unwrap();
    assert_eq!(
        contents,
        "pub mod example_capnp {\npub struct Owned;\n}\npub mod foo_capnp {\npub struct Owned;\n}"
    );
}

#[test]
fn failures_say_what_was_searched() {
    assert!(matches!(process_inner(&[], &[]), Err(ImportError::NoPatterns)));
    assert!(matches!(
        process_inner(&["*********//*.capnp*"], &[]),
        Err(ImportError::BadPattern(_))
    ));
    match process_inner(
        &["tests/example.capnp", "folder-test/*.capnp"],
        &[("DEP_A_SCHEMA_DIR", "/a"), ("OTHER", "x"), ("DEP_B_SCHEMA_DIR", "/b")],
    ) {
        Err(ImportError::NoMatches { pattern, manifest, searchpaths }) => {
            assert_eq!(pattern, "folder-test/*.capnp");
            assert_eq!(manifest, "/capnp-import");
            assert_eq!(searchpaths, vec!["/a", "/b"]);
        }
        _ => panic!("something matched"),
    }
}

#[test]
fn directories_are_no_files() {
    let mut importer: Importer<u32> =
        Importer::start(strings(&["a", "b"]), &vec![], "/m".to_string()).unwrap();
    assert!(matches!(importer.next_action(), Ok(Action::Walk(_))));
    importer.walked(vec![Entry { path: 1, is_file: false }]).unwrap();
    assert!(matches!(importer.next_action(), Ok(Action::Walk(_))));
    importer.walked(vec![Entry { path: 2, is_file: false }]).unwrap();
    match importer.next_action() {
        Err(ImportError::NoFiles { manifest, searchpaths }) => {
            assert_eq!(manifest, "/m");
            assert_eq!(searchpaths, Vec::<String>::new());
        }
        _ => panic!("a file was found"),
    }
}

#[test]
fn files_come_in_the_order_of_the_patterns() {
    let mut importer: Importer<u32> =
        Importer::start(strings(&["a", "b"]), &vars(&[("DEP_X_SCHEMA_DIR", "/x")]), "/m".to_string())
            .unwrap();
    assert_eq!(importer.import_paths(), &vec!["/x".to_string()]);
    importer
        .walked(vec![
            Entry { path: 3, is_file: true },
            Entry { path: 4, is_file: false },
            Entry { path: 1, is_file: true },
        ])
        .unwrap();
    assert!(matches!(importer.walked(vec![]), Err(ImportError::NoMatches { .. })));
    importer.walked(vec![Entry { path: 2, is_file: true }]).unwrap();
    assert!(matches!(importer.next_action(), Ok(Action::Run)));
    assert_eq!(importer.into_files(), vec![3, 1, 2]);
}

#[test]
fn rooted_patterns_search_the_search_paths() {
    let paths = strings(&["/x", "/y"]);
    let search = plan_search("//a/b*", &paths, &"/m".to_string()).unwrap();
    assert_eq!(search.expression, "a/b*");
    assert_eq!(search.prefix, vec!["a"]);
    assert_eq!(search.directories, vec!["/x", "/y"]);
    let search = plan_search("c.capnp", &paths, &"/m".to_string()).unwrap();
    assert_eq!(search.expression, "c.capnp");
    assert_eq!(search.prefix, vec!["c.capnp"]);
    assert_eq!(search.directories, vec!["/m"]);
    let search = plan_search("../schemas/*.capnp", &paths, &"/m".to_string()).unwrap();
    assert_eq!(search.prefix, vec!["..", "schemas"]);
    let search = search_below("/q", strings(&["z"]), &paths, &"/m".to_string());
    assert_eq!(search.expression, "q");
    assert_eq!(search.prefix, vec!["z"]);
    assert_eq!(search.directories, vec!["/x", "/y"]);
}

#[test]
fn schema_directories_come_from_the_environment() {
    let found = search_paths(&vars(&[
        ("DEP_A_SCHEMA_DIR", "/a"),
        ("DEP_A_SCHEMA", "/no"),
        ("XDEP_A_SCHEMA_DIR", "/no"),
        ("DEP_SCHEMA_DIR", "/b"),
        ("DEP__SCHEMA_DIR", "/c"),
    ]));
    assert_eq!(found, vec!["/a", "/b", "/c"]);
}

#[test]
fn arguments_are_string_literals() {
    assert_eq!(
        import_patterns("\"a\\x41.capnp\", r\"b\\c\"").unwrap(),
        vec!["aA.capnp", "b\\c"]
    );
    assert!(matches!(import_patterns(""), Err(ImportError::BadArguments(_))));
    assert!(matches!(import_patterns("1, 2"), Err(ImportError::BadArguments(_))));
}

#[test]
fn generated_files_are_told_by_their_names() {
    assert!(is_generated(true, &Name::Text("foo_capnp.rs".to_string())).unwrap());
    assert!(!is_generated(true, &Name::Text("foo.rs".to_string())).unwrap());
    assert!(!is_generated(false, &Name::Text("foo_capnp.rs".to_string())).unwrap());
    assert!(!is_generated(false, &Name::Missing).unwrap());
    assert!(matches!(is_generated(true, &Name::Missing), Err(ImportError::NoFileName)));
    assert!(matches!(is_generated(true, &Name::NotUnicode), Err(ImportError::NotUnicode)));
}

#[test]
fn modules_are_named_in_snake_case() {
    let stem = Name::Text("MyFile-Schema_capnp".to_string());
    assert_eq!(
        append_path(&stem, "fn f() {}").unwrap(),
        "pub mod my_file_schema_capnp {\nfn f() {}\n}"
    );
    assert!(matches!(append_path(&stem, "fn f( {}"), Err(ImportError::NotTokens)));
    assert!(matches!(append_path(&Name::Missing, ""), Err(ImportError::NoFileName)));
    assert!(matches!(append_path(&Name::NotUnicode, ""), Err(ImportError::NotUnicode)));
    assert!(matches!(module_of(&stem, "", false, Some("x".to_string())), Err(ImportError::NotTokens)));
    assert_eq!(module_of(&stem, "", true, Some("x".to_string())).unwrap(), "pub mod my_file_schema_capnp {\n\n}");
}

#[test]
fn modules_need_names() {
    let stem = Name::Text("x{}y".to_string());
    assert!(matches!(append_path(&stem, ""), Err(ImportError::NotIdentifier)));
    assert!(matches!(append_path(&stem, "}"), Err(ImportError::NotIdentifier)));
    assert!(matches!(
        module_of(&stem, "", true, Some("x".to_string())),
        Err(ImportError::NotIdentifier)
    ));
    let good = Name::Text("good".to_string());
    assert!(matches!(module_of(&good, "", true, None), Err(ImportError::NotIdentifier)));
    assert!(matches!(module_of(&good, "", false, None), Err(ImportError::NotTokens)));
    assert!(is_module_name("good", Some("good".to_string())));
    assert!(!is_module_name("good", None));
    assert!(!is_module_name("a b", Some("a".to_string())));
    for bad in ["1a", "a // b", "", "a\u{2028}", "\u{feff}a", "a\u{1f600}"] {
        assert!(matches!(
            append_path(&Name::Text(bad.to_string()), ""),
            Err(ImportError::NotIdentifier)
        ));
    }
    assert_eq!(
        append_path(&Name::Text("type".to_string()), "").unwrap(),
        "pub mod type {\n\n}"
    );
    assert!(append_path(&Name::Text("r#x".to_string()), "").is_ok());
}

#[test]
fn byte_order_mark_is_left_out() {
    let stem = Name::Text("a".to_string());
    let module = append_path(&stem, "\u{feff}fn f() {}").unwrap();
    assert_eq!(module, "pub mod a {\nfn f() {}\n}");
    syn::parse_str::<syn::ItemMod>(&module).unwrap();
}

#[test]
fn patterns_have_bounds() {
    let none: Vec<String> = vec![];
    let manifest = "/m".to_string();
    let accepted = |pattern: &str| plan_search(pattern, &none, &manifest).is_ok();
    assert!(accepted("a/{b,c}/[0-9]*.capnp"));
    assert!(accepted("<[a-z]:1,3>.capnp"));
    assert!(accepted("(?i)a/\\*.capnp"));
    assert!(accepted("<<ab:2>/:1,>c"));
    assert!(!accepted(""));
    assert!(!accepted("//"));
    assert!(!accepted("a:b"));
    assert!(!accepted("{a"));
    assert!(!accepted("[a"));
    assert!(!accepted("<aa:18446744073709551615>"));
    assert!(!accepted("<a:5000000000,>"));
    assert!(accepted(&"<a:999>".repeat(3)));
    assert!(!accepted("<<aa:999>:999>"));
    assert!(accepted("<a:1><b:1><c:1>/x"));
    assert!(accepted(&"<a:1>".repeat(60)));
    assert!(accepted(&"{a,b}".repeat(60)));
    assert!(accepted("{2023,2024}<a:1>"));
    assert!(accepted("<[0-9]:100,200>.capnp"));
    assert!(accepted("<a:16000>"));
    assert!(!accepted("<a:16383>"));
    assert!(accepted("[{]".repeat(100).as_str()));
    assert!(accepted(&"\\{".repeat(100)));
    assert!(accepted(&("<".repeat(12) + "a" + &":1>".repeat(12))));
    assert!(!accepted(&("<".repeat(13) + "a" + &":1>".repeat(13))));
    assert!(!accepted(&("{".repeat(200) + "a" + &"}".repeat(200))));
    assert!(accepted(&("{".repeat(60) + "a" + &"}".repeat(60))));
    assert!(accepted(&("b{c,".repeat(60) + "**/x" + &"}".repeat(60))));
    assert!(!accepted(&("{".repeat(61) + "a" + &"}".repeat(61))));
    assert!(accepted(&"?".repeat(4095)));
    assert!(!accepted(&"?".repeat(4096)));
    assert!(accepted(&"a".repeat(16383)));
    assert!(!accepted(&"a".repeat(16384)));
}

#[test]
fn large_patterns_are_far_from_the_limit() {
    let none: Vec<String> = vec![];
    let manifest = "/m".to_string();
    for pattern in [
        "(?i)/**/".to_string() + &"?".repeat(4091),
        "a/**/".to_string() + &"?".repeat(4091),
        "*a".repeat(3276),
        "a/**/".repeat(1480),
        "<?:0,4000>".to_string(),
        "<<?:60>a:60>".to_string(),
        "a/<[!a]:0,2300>".to_string(),
        "(?i)<k:0,16000>".to_string(),
        "(?i)<\u{3b9}:0,16000>".to_string(),
        "(?i)".to_string() + &"\u{10400}".repeat(16370),
        "(?i)[\u{180}-\u{24f}]".repeat(300),
        "{?,".repeat(50) + "a" + &"}".repeat(50) + &"?".repeat(3800),
        "{<{<{<{<{<{<{a/**/b,c}:1>,d}:1>,d}:1>,d}:1>,d}:1>,d}:1>,d}".to_string(),
    ] {
        plan_search(&pattern, &none, &manifest).unwrap();
    }
}

#[test]
fn large_classes_are_far_from_the_limit() {
    let none: Vec<String> = vec![];
    let mut class = "(?i)[".to_string();
    for i in 0..1350u32 {
        let low = char::from_u32(0x20000 + i * 70).unwrap();
        let high = char::from_u32(0x20000 + i * 70 + 66).unwrap();
        class.push(low);
        class.push('-');
        class.push(high);
    }
    class.push_str("]x");
    plan_search(&class, &none, &"/m".to_string()).unwrap();
}

#[test]
fn patterns_beyond_the_limit_are_refused() {
    let none: Vec<String> = vec![];
    let manifest = "/m".to_string();
    for pattern in [
        "<<[!a]?:999>[!b]:999>".to_string(),
        "<<aaaa:999>:999>".to_string(),
        "<".to_string() + &"a".repeat(1000) + ":999>",
        "?".repeat(0x4000),
    ] {
        assert!(matches!(
            plan_search(&pattern, &none, &manifest),
            Err(ImportError::BadPattern(_))
        ));
    }
}

#[test]
fn prefixes_are_names() {
    let none: Vec<String> = vec![];
    let prefix = |pattern: &str| {
        plan_search(pattern, &none, &"/m".to_string()).unwrap().prefix
    };
    assert_eq!(prefix("a/./b/*.x"), vec!["a", "b"]);
    assert_eq!(prefix("./a/c?/d"), vec![".", "a"]);
    assert_eq!(prefix("../../a/b"), vec!["..", "..", "a", "b"]);
    assert_eq!(prefix("a/b/"), vec!["a", "b"]);
    assert_eq!(prefix("a/b$c/d"), vec!["a"]);
    assert_eq!(prefix("**/a"), Vec::<String>::new());
    assert_eq!(prefix("A/\u{e9} -!/**"), vec!["A", "\u{e9} -!"]);
    assert_eq!(prefix("schemas/./x/{b,c}.capnp"), vec!["schemas", "x"]);
    assert_eq!(prefix("a/b/(?i)c/*"), vec!["a", "b"]);
    assert_eq!(prefix("a/<b/:1,>c"), vec!["a"]);
    assert_eq!(prefix("a/[bc]d/e"), vec!["a"]);
    assert_eq!(prefix("a/b\\*/?"), vec!["a", "b*"]);
}

#[test]
fn deep_brackets_are_no_arguments() {
    for n in [257, 100000] {
        let deep = "(".repeat(n) + &")".repeat(n);
        match import_patterns(&deep) {
            Err(ImportError::BadArguments(message)) => {
                assert_eq!(message, "the arguments hold too many brackets")
            }
            _ => panic!("accepted"),
        }
        assert!(matches!(
            append_path(&Name::Text(deep), ""),
            Err(ImportError::NotIdentifier)
        ));
    }
}

#[test]
fn brackets_in_literals_are_no_brackets() {
    let many = "{".repeat(1000);
    let input = format!("\"{many}\\\"\" , r\"{many}\\\", r##\"{many}\"#\"##,\n\"a\"");
    assert_eq!(
        import_patterns(&input).unwrap(),
        vec![
            many.clone() + "\"",
            many.clone() + "\\",
            many + "\"#",
            "a".to_string()
        ]
    );
    // A suffix leaves the list, and then brackets count.
    let few = format!("\"{}\"x", "(".repeat(256));
    assert!(import_patterns(&few).is_ok());
    let many = format!("\"{}\"x", "(".repeat(257));
    assert!(import_patterns(&many).is_err());
}

#[test]
fn modules_are_joined_up_to_the_first_error() {
    let ok = |s: &str| Ok(s.to_string());
    assert_eq!(join_modules(vec![]).unwrap(), "");
    assert_eq!(join_modules(vec![ok("a")]).unwrap(), "a");
    assert_eq!(join_modules(vec![ok("a"), ok("b"), ok("")]).unwrap(), "a\nb\n");
    assert!(matches!(
        join_modules(vec![ok("a"), Err(ImportError::NotUnicode), Err(ImportError::NotTokens)]),
        Err(ImportError::NotUnicode)
    ));
}

/// The names that an expression begins with.
fn leading_path(expression: &str) -> Vec<String> {
    expression
        .split('/')
        .take_while(|part| !part.contains(['*', '?', '$', '(', '[', '{', '<', '\\']))
        .enumerate()
        .filter(|(i, part)| !part.is_empty() && (*i == 0 || *part != "."))
        .map(|(_, part)| part.to_string())
        .collect()
}

#[test]
fn any_pattern_gets_an_answer() {
    let none: Vec<String> = vec![];
    let manifest = "/m".to_string();
    let pieces = [
        "/", "*", "**", "?", "$", ":", "<", ">", "(?i)", "(?-i)", "(", "[", "]", "{", "}", ",",
        "\\", "!", "-", "a", "B", "9", "99", "\u{e9}", "..", ".", "[a-c]", "{a,b}", "<x:1,2>",
        "/**/", "[!a]", "\\*",
    ];
    let mut state: u64 = 7;
    let mut accepted: u32 = 0;
    for _ in 0..5000 {
        let mut pattern = String::new();
        state = state.wrapping_mul(6364136223846793005).wrapping_add(1442695040888963407);
        let length: u64 = 1 + (state >> 33) % 12;
        for _ in 0..length {
            state = state.wrapping_mul(6364136223846793005).wrapping_add(1442695040888963407);
            pattern.push_str(pieces[((state >> 33) % pieces.len() as u64) as usize]);
        }
        if let Ok(search) = plan_search(&pattern, &none, &manifest) {
            accepted += 1;
            let names = leading_path(&search.expression);
            assert!(search.prefix.starts_with(&names), "{}", pattern);
            if !search.expression.contains(['(', '[', '{', '<', '\\']) {
                assert_eq!(search.prefix, names, "{}", pattern);
            }
        }
    }
    assert!(accepted > 50);
}

#[test]
fn code_goes_into_a_file_of_its_own() {
    let a = pattern_file(Some("/out"), &strings(&["a"])).unwrap();
    assert!(a.starts_with("/out/") && a.ends_with(".rs"));
    assert_eq!(pattern_file(Some("/out"), &strings(&["a"])), Some(a.clone()));
    assert_ne!(pattern_file(Some("/out"), &strings(&["b"])), Some(a));
    assert_eq!(pattern_file(None, &strings(&["a"])), None);
}

#[test]
fn parsed_arguments_are_patterns() {
    assert_eq!(patterns_of(Ok(strings(&["a", "b"]))).unwrap(), vec!["a", "b"]);
    match patterns_of(Err("bad".to_string())) {
        Err(ImportError::BadArguments(message)) => assert_eq!(message, "bad"),
        _ => panic!("accepted"),
    }
}

#[test]
fn helper_text_stops_at_the_first_bad_file() {
    assert_eq!(helper_text(&vec![]).unwrap(), "");
    let files = vec![
        Generated { file_stem: Name::Text("a".to_string()), contents: "".to_string() },
        Generated { file_stem: Name::Text("b".to_string()), contents: "}".to_string() },
        Generated { file_stem: Name::Missing, contents: "".to_string() },
    ];
    assert!(matches!(helper_text(&files), Err(ImportError::NotTokens)));
}

#[test]
fn code_goes_into_the_output_directory() {
    assert_eq!(
        helper_file(Some("/out"), 18446744073709551615),
        Some("/out/18446744073709551615.rs".to_string())
    );
    assert_eq!(helper_file(Some("/out"), 0), Some("/out/0.rs".to_string()));
    assert_eq!(helper_file(None, 7), None);
}
