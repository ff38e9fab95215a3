use rfq::manifest::{check_engine_manifest, declared_dependencies, declares_only, Table};

const CORE: &str = "\
[package]
name = \"rfq-core\"
edition.workspace = true

[dependencies]

[dev-dependencies]
proptest.workspace = true # the one test helper
";

const CHAIN: &str = "\
[package]
name = \"rfq-chain\"

[dependencies]
rfq-core = { workspace = true }
";

const RUNTIME: &str = "\
[package]
name = \"rfq-runtime\"

[dependencies]
rfq-core = { workspace = true }
rfq-chain.workspace = true

[dev-dependencies]
proptest = \"1\"
criterion = { version = \"0.5\" }

[[bench]]
name = \"hot_path\"
";

fn assert_dependencies_within(manifest: &str, permitted: &[&str], why: &str) {
    let names: Vec<&[u8]> = permitted.iter().map(|name| name.as_bytes()).collect();
    assert!(declares_only(manifest.as_bytes(), &names), "not within {permitted:?}. {why}");
}

fn declared(manifest: &str) -> Vec<(Table, String)> {
    declared_dependencies(manifest.as_bytes())
        .into_iter()
        .map(|(table, name)| (table, String::from_utf8(name).unwrap()))
        .collect()
}

#[test]
fn the_engine_depends_on_nothing() {
    assert_dependencies_within(
        CORE,
        &["proptest"],
        "The engine has zero dependencies and in particular never depends on rfq-chain. The \
         only engine-to-custody path is a SubmitIntent event through an adapter.",
    );
    assert!(check_engine_manifest(CORE.as_bytes()).is_ok());
}

#[test]
fn custody_depends_on_shared_types_and_nothing_else() {
    assert_dependencies_within(
        CHAIN,
        &["rfq-core"],
        "Custody knows nothing of requests, quotes, legs, reservations or claims, and must not \
         learn about the runtime that wires it to the engine.",
    );
    assert_eq!(declared(CHAIN), vec![(Table::Normal, "rfq-core".to_string())]);
}

#[test]
fn the_runtime_wires_the_two_systems_and_owns_neither() {
    assert_dependencies_within(
        RUNTIME,
        &["rfq-core", "rfq-chain", "proptest", "criterion"],
        "The runtime holds both systems side by side; it is the only package permitted to.",
    );
    assert_eq!(
        declared(RUNTIME),
        vec![
            (Table::Normal, "rfq-core".to_string()),
            (Table::Normal, "rfq-chain".to_string()),
            (Table::Dev, "proptest".to_string()),
            (Table::Dev, "criterion".to_string()),
        ]
    );
}

#[test]
fn a_dependency_on_custody_is_found_in_every_form_it_can_take() {
    for manifest in [
        "[dependencies]\nrfq-chain = \"1\"\n",
        "[dependencies]\n\"rfq-chain\" = \"1\"",
        "[dependencies]\nrfq-chain.workspace = true",
        "[dependencies.rfq-chain]\nversion = \"1\"\n",
        "[target.'cfg(unix)'.dependencies]\nrfq-chain = \"1\"\n",
        "[target.'cfg(unix)'.dependencies.rfq-chain]\n",
        "  [ dependencies ]  # here\n  rfq-chain = \"1\" # and here\n",
        "[\u{a0}dependencies\u{3000}]\u{2028}\n\u{1680}rfq-chain\u{2003}= \"1\"",
        "\u{85}[dependencies]\n\u{205f}rfq-chain\u{202f}.workspace = true",
    ] {
        assert_eq!(declared(manifest), vec![(Table::Normal, "rfq-chain".to_string())], "{manifest}");
        let refused = check_engine_manifest(manifest.as_bytes()).unwrap_err();
        assert_eq!(refused.table, Table::Normal);
        assert_eq!(refused.name, b"rfq-chain".to_vec());
    }
    let build = check_engine_manifest(b"[build-dependencies]\ncc = \"1\"\n").unwrap_err();
    assert_eq!((build.table, build.name), (Table::Build, b"cc".to_vec()));
    let dev = check_engine_manifest(b"[dev-dependencies]\nproptest = \"1\"\nrfq-chain = \"1\"\n")
        .unwrap_err();
    assert_eq!((dev.table, dev.name), (Table::Dev, b"rfq-chain".to_vec()));
}

#[test]
fn what_is_no_dependency_is_not_taken_for_one() {
    assert!(declared("").is_empty());
    assert!(declared("[package]\nname = \"x\"\n[features]\ndefault = []\n").is_empty());
    assert!(declared("[dependencies]\n# rfq-chain = \"1\"\n[lints]\nrust = 1\n").is_empty());
    assert!(declared("[dependencies]\n= \"1\"\nplain\n").is_empty());
    assert_eq!(
        declared("[dependencies]\na = \"#1\"\nb = '#'\n"),
        vec![(Table::Normal, "a".to_string()), (Table::Normal, "b".to_string())]
    );
}

#[test]
fn only_white_space_is_trimmed() {
    // A zero-width space is no white space, nor is a letter whose encoding ends like one.
    assert_eq!(
        declared("[dependencies]\n\u{200b}a = \"1\"\n\u{420}b\u{e0} = \"1\"\n"),
        vec![
            (Table::Normal, "\u{200b}a".to_string()),
            (Table::Normal, "\u{420}b\u{e0}".to_string()),
        ]
    );
}
