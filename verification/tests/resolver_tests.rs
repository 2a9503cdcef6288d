use theme_catalog::cache::{decode_cache, encode_cache};
use theme_catalog::document::{extract_child_node_names, parse, serialize, upsert_scalar_node};
use theme_catalog::locator::{ConfigurationError, ThemeData};
use theme_catalog::resolver::{
    default_theme_name, update_config, FetchSession, Resolution, resolve_start,
};
use theme_catalog::selection::{next_index, previous_index};

fn names(v: &[&str]) -> Vec<Vec<u8>> {
    v.iter().map(|s| s.as_bytes().to_vec()).collect()
}

#[test]
fn extract_returns_each_entry_in_order() {
    let text = b"themes {\ngruvbox {\nfg \"#D5C4A1\"\nbg \"#282828\"\n}\nnord {\n}\ndracula\n}\n";
    let doc = parse(text).unwrap();
    let got = extract_child_node_names(&doc, b"themes");
    assert_eq!(got, names(&["gruvbox", "nord", "dracula"]));
}

#[test]
fn extract_without_themes_node_is_empty() {
    let doc = parse(b"other_setting 1\npane_frames false\n").unwrap();
    let got = extract_child_node_names(&doc, b"themes");
    assert!(got.is_empty());
}

#[test]
fn extract_without_children_block_is_empty() {
    let doc = parse(b"themes\n").unwrap();
    let got = extract_child_node_names(&doc, b"themes");
    assert!(got.is_empty());
}

#[test]
fn upsert_twice_serializes_identically() {
    let doc = parse(b"theme \"a\"\nbar 2\n").unwrap();
    let mut once = doc;
    upsert_scalar_node(&mut once, b"theme", b"gruvbox");
    let first = serialize(&once);
    upsert_scalar_node(&mut once, b"theme", b"gruvbox");
    let second = serialize(&once);
    assert_eq!(first, second);
}

#[test]
fn upsert_replaces_existing_arguments() {
    let mut doc = parse(b"theme \"a\"\n").unwrap();
    upsert_scalar_node(&mut doc, b"theme", b"b");
    assert_eq!(serialize(&doc), b"theme \"b\"\n".to_vec());
}

#[test]
fn upsert_appends_when_node_is_absent() {
    let mut doc = parse(b"other_setting 1\n").unwrap();
    upsert_scalar_node(&mut doc, b"theme", b"gruvbox");
    assert_eq!(serialize(&doc), b"other_setting 1\ntheme \"gruvbox\"\n".to_vec());
}

#[test]
fn update_config_appends_theme_and_keeps_other_nodes() {
    let out = update_config(b"other_setting 1\n", b"gruvbox").unwrap();
    assert_eq!(out, b"other_setting 1\ntheme \"gruvbox\"\n".to_vec());
}

#[test]
fn update_config_keeps_block_bytes_verbatim() {
    let out = update_config(b"keybinds {\n    unbind \"Ctrl g\"\n}\n", b"nord").unwrap();
    assert_eq!(out, b"keybinds{\n    unbind \"Ctrl g\"\n}\ntheme \"nord\"\n".to_vec());
}

#[test]
fn update_config_rejects_unparsable_text_without_output() {
    assert!(update_config(b"theme {unclosed\n", b"nord").is_err());
    assert!(update_config(b"\"stray quote\n", b"nord").is_err());
}

#[test]
fn cache_round_trips_names_and_timestamp() {
    let themes = names(&["default", "gruvbox", "nord"]);
    let bytes = encode_cache(&themes, 1700000000);
    assert_eq!(
        String::from_utf8(bytes.clone()).unwrap(),
        "{\"themes\":[\"default\",\"gruvbox\",\"nord\"],\"timestamp\":1700000000}"
    );
    let (back, ts) = decode_cache(&bytes).unwrap();
    assert_eq!(back, themes);
    assert_eq!(ts, 1700000000);
}

#[test]
fn cache_of_no_themes_round_trips() {
    let bytes = encode_cache(&Vec::new(), 7);
    assert_eq!(String::from_utf8(bytes.clone()).unwrap(), "{\"themes\":[],\"timestamp\":7}");
    let (back, ts) = decode_cache(&bytes).unwrap();
    assert!(back.is_empty());
    assert_eq!(ts, 7);
}

#[test]
fn malformed_cache_reads_as_no_cache() {
    assert!(decode_cache(b"").is_none());
    assert!(decode_cache(b"{\"themes\":[\"a\"]}").is_none());
    assert!(decode_cache(b"not json at all").is_none());
    assert!(decode_cache(b"{\"themes\":[\"a\"],\"timestamp\":12j}").is_none());
}

#[test]
fn cache_snapshot_one_second_inside_the_window_is_honored() {
    let now: u64 = 1700000000;
    let bytes = encode_cache(&names(&["default"]), now - 3599);
    match resolve_start(false, Some(&bytes), now) {
        Resolution::UseCache(got) => assert_eq!(got, names(&["default"])),
        Resolution::NeedFetch => panic!("fresh snapshot must be honored"),
    }
}

#[test]
fn cache_snapshot_past_the_window_triggers_fetch() {
    let now: u64 = 1700000000;
    let exactly = encode_cache(&names(&["default"]), now - 3600);
    assert!(matches!(resolve_start(false, Some(&exactly), now), Resolution::NeedFetch));
    let past = encode_cache(&names(&["default"]), now - 3601);
    assert!(matches!(resolve_start(false, Some(&past), now), Resolution::NeedFetch));
}

#[test]
fn force_refresh_ignores_a_fresh_cache() {
    let now: u64 = 1700000000;
    let bytes = encode_cache(&names(&["default"]), now);
    assert!(matches!(resolve_start(true, Some(&bytes), now), Resolution::NeedFetch));
}

#[test]
fn absent_cache_triggers_fetch() {
    assert!(matches!(resolve_start(false, None, 5), Resolution::NeedFetch));
}

const LISTING: &str = r#"[
  {
    "name": "gruvbox.kdl",
    "path": "zellij-utils/assets/themes/gruvbox.kdl",
    "size": 1234,
    "download_url": "https://example.invalid/gruvbox.kdl",
    "_links": { "self": "x", "git": "y" }
  },
  {
    "name": "nord.kdl",
    "download_url": "https://example.invalid/nord.kdl"
  },
  {
    "name": "README.md",
    "download_url": "https://example.invalid/README.md"
  },
  {
    "name": "broken.kdl",
    "download_url": null
  },
  {
    "name": "dracula.kdl",
    "download_url": "https://example.invalid/dracula.kdl"
  }
]"#;

#[test]
fn listing_keeps_only_usable_document_entries() {
    let session = FetchSession::begin(LISTING.as_bytes()).unwrap();
    let urls: Vec<&[u8]> = session.files.iter().map(|f| f.name.as_slice()).collect();
    assert_eq!(urls, vec![b"gruvbox.kdl".as_slice(), b"nord.kdl".as_slice(), b"dracula.kdl".as_slice()]);
}

#[test]
fn malformed_listing_is_a_fatal_decode_failure() {
    assert!(FetchSession::begin(b"503 Service Unavailable").is_err());
    assert!(FetchSession::begin(b"{\"message\":\"rate limited\"}").is_err());
    assert!(FetchSession::begin(b"[{\"name\":\"a.kdl\"").is_err());
}

#[test]
fn one_bad_download_loses_only_its_own_themes() {
    let mut session = FetchSession::begin(LISTING.as_bytes()).unwrap();
    assert!(session.next_request().is_some());
    session.supply(Some(b"themes {\ngruvbox\ngruvbox-light\n}\n".as_slice()));
    assert!(session.next_request().is_some());
    session.supply(None); // download failure: skipped silently
    assert!(session.next_request().is_some());
    session.supply(Some(b"garbage { not a document".as_slice())); // parse failure: skipped
    assert!(session.next_request().is_none());
    assert!(session.done());
    let (catalog, skipped) = session.finish();
    assert_eq!(skipped, 2);
    assert_eq!(catalog, names(&["default", "gruvbox", "gruvbox-light"]));
}

#[test]
fn catalog_is_sorted_with_default_and_keeps_duplicates() {
    let mut session = FetchSession::begin(LISTING.as_bytes()).unwrap();
    session.supply(Some(b"themes {\nzzz\n}\n".as_slice()));
    session.supply(Some(b"themes {\nzzz\naaa\n}\n".as_slice()));
    session.supply(Some(b"themes {\n}\n".as_slice()));
    let (catalog, skipped) = session.finish();
    assert_eq!(skipped, 0);
    assert_eq!(catalog, names(&["aaa", "default", "zzz", "zzz"]));
}

#[test]
fn stale_cache_resolution_makes_one_listing_call_and_one_download_per_file() {
    let now: u64 = 1700000000;
    let cache = encode_cache(&names(&["default", "old"]), now - 7200);
    // the snapshot is older than the freshness window: a fetch is required
    let mut listing_calls: usize = 0;
    let catalog = match resolve_start(false, Some(&cache), now) {
        Resolution::UseCache(_) => panic!("stale snapshot must not be honored"),
        Resolution::NeedFetch => {
            listing_calls += 1;
            let mut session = FetchSession::begin(LISTING.as_bytes()).unwrap();
            let mut downloads: usize = 0;
            loop {
                let url: Vec<u8> = match session.next_request() {
                    Some(u) => u.clone(),
                    None => break,
                };
                let body: Vec<u8> = if url.ends_with(b"gruvbox.kdl") {
                    b"themes {\ngruvbox\n}\n".to_vec()
                } else if url.ends_with(b"nord.kdl") {
                    b"themes {\nnord\n}\n".to_vec()
                } else {
                    b"themes {\ndracula\n}\n".to_vec()
                };
                downloads += 1;
                session.supply(Some(body.as_slice()));
            }
            // one download per usable listed file, and no more
            assert_eq!(downloads, 3);
            let (catalog, skipped) = session.finish();
            assert_eq!(skipped, 0);
            catalog
        },
    };
    assert_eq!(listing_calls, 1);
    assert_eq!(catalog, names(&["default", "dracula", "gruvbox", "nord"]));
    // write-through: a fresh snapshot with the current stamp is honored next time
    let fresh = encode_cache(&catalog, now);
    let (back, ts) = decode_cache(&fresh).unwrap();
    assert_eq!(back, catalog);
    assert_eq!(ts, now);
}

#[test]
fn paths_follow_the_override_directory() {
    let td = ThemeData::new(Some("/tmp/zcfg".to_string()), Some("/home/u".to_string())).unwrap();
    assert_eq!(td.config_path().as_str(), "/tmp/zcfg/config.kdl");
    assert_eq!(td.theme_dir().as_str(), "/tmp/zcfg/themes");
    assert_eq!(td.cache_path().as_str(), "/tmp/zcfg/.theme_cache.json");
}

#[test]
fn paths_fall_back_to_the_home_directory() {
    let td = ThemeData::new(None, Some("/home/u".to_string())).unwrap();
    assert_eq!(td.config_path().as_str(), "/home/u/.config/zellij/config.kdl");
    assert_eq!(td.theme_dir().as_str(), "/home/u/.config/zellij/themes");
    assert_eq!(td.cache_path().as_str(), "/home/u/.config/zellij/.theme_cache.json");
}

#[test]
fn no_environment_source_is_a_configuration_error() {
    match ThemeData::new(None, None) {
        Ok(_) => panic!("paths must not be derivable without any environment source"),
        Err(e) => assert_eq!(e, ConfigurationError),
    }
}

#[test]
fn default_theme_is_spelled_out() {
    assert_eq!(default_theme_name(), b"default".to_vec());
}

#[test]
fn selection_wraps_both_ways() {
    assert_eq!(next_index(Some(0), 3), 1);
    assert_eq!(next_index(Some(2), 3), 0);
    assert_eq!(next_index(None, 3), 0);
    assert_eq!(previous_index(Some(0), 3), 2);
    assert_eq!(previous_index(Some(2), 3), 1);
    assert_eq!(previous_index(None, 3), 0);
}

#[test]
fn parse_rejects_stray_closing_brace() {
    assert!(parse(b"}\n").is_err());
    assert!(parse(b"a 1\n}\n").is_err());
}

#[test]
fn serialized_form_is_a_parse_fixed_point() {
    let doc = parse(b"a 1\nb {x {y}}\ntheme \"nord\"\n").unwrap();
    let once = serialize(&doc);
    let again = serialize(&parse(&once).unwrap());
    assert_eq!(once, again);
}

#[test]
fn cache_escapes_backslashes_in_names() {
    let themes = vec![b"we\\ird".to_vec()];
    let bytes = encode_cache(&themes, 1);
    assert_eq!(
        String::from_utf8(bytes.clone()).unwrap(),
        "{\"themes\":[\"we\\\\ird\"],\"timestamp\":1}"
    );
    let (back, ts) = decode_cache(&bytes).unwrap();
    assert_eq!(back, themes);
    assert_eq!(ts, 1);
}

#[test]
fn parse_keeps_argument_tokens_verbatim() {
    let text = b"pane_frames false\ncopy_command \"xclip -selection clipboard\"\n";
    let doc = parse(text).unwrap();
    assert_eq!(serialize(&doc), text.to_vec());
}
