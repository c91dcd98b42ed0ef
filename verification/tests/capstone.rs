use capnp::capstone::{accepts_version, extract_bin_text, plan, CapstoneAcquired, Plan};
use capnp::strings::{same, trim};

#[test]
fn only_the_needed_version_is_accepted() {
    assert!(accepts_version("Cap'n Proto version 2.0-fs"));
    assert!(accepts_version("  Cap'n Proto version 2.0-fs\r\n"));
    assert!(!accepts_version("Cap'n Proto version 1.0.1"));
    assert!(!accepts_version("Cap'n Proto version 2.0-fs2"));
    assert!(!accepts_version(""));
}

#[test]
fn system_compiler_is_used_where_it_fits() {
    let fits: Vec<u8> = "Cap'n Proto version 2.0-fs\n".to_string().into_bytes();
    match plan(Some(("/bin/capnp", Some(fits))), true) {
        Plan::Use(acquired) => {
            assert!(matches!(acquired, CapstoneAcquired::OnSystem("/bin/capnp")));
            assert_eq!(acquired.into_path(), "/bin/capnp");
        }
        _ => panic!("not used"),
    }
    assert_eq!(CapstoneAcquired::Locally("/built").into_path(), "/built");
    assert!(matches!(plan(Some(("/bin/capnp", Some(vec![0xff]))), false), Plan::Build));
    assert!(matches!(plan(Some(("/bin/capnp", None)), false), Plan::Build));
    assert!(matches!(plan::<&str>(None, false), Plan::Build));
    assert!(matches!(plan::<&str>(None, true), Plan::Refuse));
}

#[test]
fn white_space_is_trimmed_at_both_ends() {
    assert_eq!(trim(" \t\u{2003}a b\u{a0}\n"), "a b");
    assert_eq!(trim("  "), "");
    assert_eq!(trim(""), "");
    assert_eq!(trim("x"), "x");
    assert!(same("a", "a"));
    assert!(!same("a", "ab"));
    assert!(!same("ab", "a"));
}

#[test]
fn unpacking_code_names_the_compiler() {
    let text = extract_bin_text("/built/bin/capnp");
    assert!(text.starts_with("\n#[allow(dead_code)]\nfn commandhandle()"));
    assert!(text.contains("(r#\"/built/bin/capnp\"#);\n"));
    assert!(text.ends_with("    Ok(tempdir)\n}"));
    syn::parse_str::<syn::ItemFn>(&text).unwrap();
}

#[test]
fn every_white_space_character_is_trimmed() {
    for c in '\u{0}'..='\u{10ffff}' {
        let s = c.to_string();
        assert_eq!(trim(&s).is_empty(), c.is_whitespace());
    }
}
