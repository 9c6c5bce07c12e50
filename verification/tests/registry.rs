use osap_host::registry::{
    add_page, another_page, check_repo, check_sha, check_versions, describe_capability, encode_ref, manifest_url, newer_commit,
    one_line, orphaned_by, reload_order, repo_name, topic_query, transitive_dependents,
    RemoteModule, UpdateCheck,
};
use osap_host::registry::manifest_version;
use osap_host::text::trimmed;

fn g(pairs: &[(&str, &[&str])]) -> Vec<(String, Vec<String>)> {
    pairs
        .iter()
        .map(|(id, deps)| (id.to_string(), deps.iter().map(|s| s.to_string()).collect()))
        .collect()
}

// css -> kontakt -> {overlay, daw}; sforzando -> {overlay, daw}.
fn sample() -> Vec<(String, Vec<String>)> {
    g(&[
        ("css", &["kontakt"]),
        ("kontakt", &["overlay", "daw"]),
        ("sforzando", &["overlay", "daw"]),
        ("overlay", &[]),
        ("daw", &[]),
    ])
}

#[test]
fn dependents_walk_the_whole_chain() {
    let graph = sample();
    let mut d = transitive_dependents("overlay", &graph);
    d.sort();
    assert_eq!(d, ["css", "kontakt", "sforzando"]);
    let mut k = transitive_dependents("kontakt", &graph);
    k.sort();
    assert_eq!(k, ["css"]);
    assert!(transitive_dependents("css", &graph).is_empty());
}

#[test]
fn reload_order_puts_a_dependency_before_its_dependent() {
    let graph = sample();
    let order = reload_order("overlay", &graph);
    assert_eq!(order.len(), 3);
    let pos = |id: &str| order.iter().position(|m| m == id).unwrap();
    assert!(pos("kontakt") < pos("css"));
    assert!(order.contains(&"sforzando".to_string()));
    assert!(reload_order("css", &graph).is_empty());
}

#[test]
fn reload_order_survives_a_cycle() {
    let graph = g(&[("a", &["x", "b"]), ("b", &["x", "a"]), ("x", &[])]);
    let mut order = reload_order("x", &graph);
    order.sort();
    assert_eq!(order, ["a", "b"]);
}

#[test]
fn orphans_cascade_but_spare_still_needed() {
    let graph = sample();
    let mut o = orphaned_by(&["css".into()], &graph);
    o.sort();
    assert_eq!(o, ["kontakt"]);
    let mut o2 = orphaned_by(&["css".into(), "sforzando".into()], &graph);
    o2.sort();
    assert_eq!(o2, ["daw", "kontakt", "overlay"]);
}

#[test]
fn one_line_flattens_and_shortens() {
    assert_eq!(one_line("a\n\n b\u{202e}c\u{1b}[2J\u{2066}\t", 100), "a b c [2J");
    assert_eq!(one_line("  plain  ", 100), "plain");
    let cut = one_line(&"x".repeat(200), 10);
    assert_eq!(cut, format!("{}\u{2026}", "x".repeat(9)));
    assert_eq!(cut.chars().count(), 10);
}

#[test]
fn every_capability_name_reads_as_a_sentence() {
    let known = [
        "window", "screen", "ocr", "element", "input", "keys", "hotkey", "gamepad", "speech", "sound", "timer",
        "settings", "log", "path", "resource", "arbiter",
    ];
    for cap in known {
        let s = describe_capability(cap);
        assert!(s.ends_with(&format!("({cap})")) && !s.contains("does not know"), "{cap}: {s}");
    }
    assert!(describe_capability("screen.imagesearch").contains("does not know"));
}

// Scenarios of this crate's own.

#[test]
fn a_chain_of_dependents_is_rebuilt_bottom_up() {
    // app -> ui -> core: when core changes, ui is rebuilt before app.
    let graph = g(&[("app", &["ui"]), ("ui", &["core"]), ("core", &[])]);
    assert_eq!(reload_order("core", &graph), ["ui", "app"]);
    assert_eq!(transitive_dependents("core", &graph), ["ui", "app"]);
}

#[test]
fn a_module_in_a_cycle_with_the_changed_one_depends_on_itself() {
    let graph = g(&[("a", &["b"]), ("b", &["a"])]);
    let mut d = transitive_dependents("a", &graph);
    d.sort();
    assert_eq!(d, ["a", "b"]);
}

#[test]
fn a_dependency_that_is_not_installed_is_not_orphaned() {
    let graph = g(&[("app", &["lib", "missing"]), ("lib", &[])]);
    assert_eq!(orphaned_by(&["app".into()], &graph), ["lib"]);
}

#[test]
fn an_unknown_capability_is_named_on_one_line() {
    assert_eq!(
        describe_capability("x\ny"),
        "\u{201c}x y\u{201d} \u{2014} a name this version of the application does not know, which unlocks nothing"
    );
    assert_eq!(describe_capability("ocr"), "read text on the screen (ocr)");
}

#[test]
fn one_line_cuts_at_a_space_without_leaving_it() {
    assert_eq!(one_line("ab cd", 4), "ab\u{2026}");
    assert_eq!(one_line("abc", 0), "");
    assert_eq!(one_line("\u{a0}a\u{3000}b\u{85}", 10), "a b");
}

#[test]
fn a_repository_name_is_owner_slash_repo_as_github_spells_it() {
    assert!(check_repo("someone/kontakt").is_ok());
    assert!(check_repo("a-b/c_d.e").is_ok());
    assert_eq!(
        check_repo("owner/..").unwrap_err(),
        "\u{201c}owner/..\u{201d} is not a GitHub repository name (owner/repo)"
    );
    assert!(check_repo("noslash").is_err());
    assert!(check_repo("/repo").is_err());
    assert!(check_repo("owner/").is_err());
    assert!(check_repo("a/b/c").is_err());
    assert!(check_repo(&format!("{}/r", "o".repeat(40))).is_err());
    assert!(check_repo(&format!("{}/r", "o".repeat(39))).is_ok());
    assert!(check_repo("ow_ner/r").is_err());
}

#[test]
fn a_commit_id_is_forty_hex_digits() {
    assert!(check_sha(&"a1".repeat(20)).is_ok());
    assert_eq!(check_sha("main").unwrap_err(), "GitHub answered \"main\" where a commit id was expected");
    assert!(check_sha(&"g".repeat(40)).is_err());
    assert!(check_sha(&"a".repeat(41)).is_err());
}

#[test]
fn the_topic_search_is_narrowed_by_trimmed_text() {
    assert_eq!(topic_query("  "), "topic:osap-module");
    assert_eq!(topic_query(" daw  "), "topic:osap-module daw");
    assert_eq!(trimmed("\t x y \n"), "x y");
}

#[test]
fn a_module_installs_into_its_repository_name() {
    assert_eq!(repo_name("someone/kontakt"), "kontakt");
    assert_eq!(repo_name("plain"), "plain");
    assert_eq!(repo_name("a/b/"), "");
}

#[test]
fn search_pages_follow_while_full_and_listed_once() {
    assert!(another_page(100, 1, 250));
    assert!(!another_page(100, 3, 250));
    assert!(!another_page(99, 1, 250));
    assert!(!another_page(100, 10, 5000));
    let m = |n: &str, stars: u64| RemoteModule {
        full_name: n.to_string(),
        description: String::new(),
        stars,
        default_branch: "main".to_string(),
        updated_at: String::new(),
    };
    let mut out = vec![m("a/x", 9)];
    add_page(&mut out, vec![m("b/y", 5), m("a/x", 9), m("c/z", 1), m("b/y", 5)]);
    let names: Vec<&str> = out.iter().map(|r| r.full_name.as_str()).collect();
    assert_eq!(names, ["a/x", "b/y", "c/z"]);
}

#[test]
fn an_update_is_a_newer_version_or_else_a_newer_commit() {
    assert!(matches!(check_versions("1.2.0".to_string(), "1.1.9"), UpdateCheck::Newer(v) if v == "1.2.0"));
    assert!(matches!(check_versions("1.0.0".to_string(), "1.0.0"), UpdateCheck::Current));
    assert!(matches!(check_versions("1.0.0-beta".to_string(), "1.0.0"), UpdateCheck::Current));
    assert!(matches!(check_versions("main".to_string(), "1.0.0"), UpdateCheck::ByCommit));
    assert_eq!(newer_commit("abc".to_string(), "def"), Some("abc".to_string()));
    assert_eq!(newer_commit("abc".to_string(), "abc"), None);
    assert_eq!(newer_commit(String::new(), "abc"), None);
}

#[test]
fn a_branch_goes_into_the_manifest_url_encoded() {
    assert_eq!(
        manifest_url("o/a", "fix#12").unwrap(),
        "https://raw.githubusercontent.com/o/a/fix%2312/module.toml"
    );
    assert_eq!(
        manifest_url("o/a", "feature/x").unwrap(),
        "https://raw.githubusercontent.com/o/a/feature/x/module.toml"
    );
    assert_eq!(encode_ref("a b%c\u{e9}"), "a%20b%25c%C3%A9");
    assert_eq!(encode_ref(&"0123456789abcdef".repeat(2)[..]), "0123456789abcdef0123456789abcdef");
    assert_eq!(
        manifest_url("o/a", "a..b").unwrap_err(),
        "o/a: the branch \"a..b\" cannot be read over raw.githubusercontent.com"
    );
    assert!(manifest_url("o/a", "").is_err());
    assert!(manifest_url("o/..", "main").is_err());
}

#[test]
fn one_line_never_passes_its_width() {
    assert_eq!(one_line("x", 0), "");
    assert_eq!(one_line("", 0), "");
    assert_eq!(one_line("xy", 1), "\u{2026}");
    assert_eq!(one_line("x", 1), "x");
    for max in 0..6 {
        assert!(one_line("a bb ccc dddd", max).chars().count() <= max);
    }
}

#[test]
fn a_manifest_declares_its_version_as_text() {
    assert_eq!(manifest_version("id = \"a\"\nversion = \"1.2.0\"\n"), Ok("1.2.0".to_string()));
    assert_eq!(manifest_version("id = \"a\"\n"), Err("module.toml has no version".to_string()));
    assert_eq!(manifest_version("version = 3\n"), Err("module.toml has no version".to_string()));
    assert_eq!(manifest_version("this is [not toml"), Err("reading module.toml".to_string()));
}
