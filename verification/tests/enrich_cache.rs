use clparse::config_cache::ParserConfigCache;
use clparse::parse_engine::{enrich, parse_the_split};
use clparse::parser_config::{CharOption, ConfigFile, ParserConfig, StringOption};
use clparse::parser_structs::CLElement;

fn behaviour_config(inherent: &[&str]) -> ParserConfig {
    let config_file = ConfigFile {
        name: String::from("prog"),
        has_separatorless_args_for_char_options: false,
        handle_quotes: false,
        string_separators: Vec::new(),
        string_options: vec![StringOption {
            option_name: String::from("data"),
            has_arg: Some(false),
            behaviours: vec![String::from("writes")],
        }],
        char_options: vec![CharOption {
            option_name: 'x',
            has_arg: Some(false),
            behaviours: vec![String::from("extracts"), String::from("reads")],
        }],
        behaviours: inherent.iter().map(|s| String::from(*s)).collect(),
    };
    ParserConfig::new(
        String::from("prog"),
        Vec::new(),
        vec![('x', false)],
        vec![(String::from("data"), false)],
        false,
        false,
        config_file,
    )
}

fn toks2(parts: &[&str]) -> Vec<String> {
    parts.iter().map(|p| String::from(*p)).collect()
}

#[test]
fn enrich_attaches_behaviours_and_prepends_inherent_tags() {
    let cfg = behaviour_config(&["global"]);
    let parsed = parse_the_split(toks2(&["-x", "--data"]), &cfg);
    let out = enrich(&parsed, &cfg).expect("enrichment should succeed");
    assert_eq!(out.len(), 3);
    match &out[0] {
        CLElement::CLInherentBehaviours(tags) => assert_eq!(tags, &vec![String::from("global")]),
        other => panic!("expected inherent behaviours first, got {:?}", other),
    }
    match &out[1] {
        CLElement::CLBehaviouredOption(name, tags, None) => {
            assert_eq!(name, "x");
            assert_eq!(
                tags,
                &vec![String::from("extracts"), String::from("reads")]
            );
        },
        other => panic!("expected behavioured option x, got {:?}", other),
    }
    match &out[2] {
        CLElement::CLBehaviouredOption(name, tags, None) => {
            assert_eq!(name, "data");
            assert_eq!(tags, &vec![String::from("writes")]);
        },
        other => panic!("expected behavioured option data, got {:?}", other),
    }
}

#[test]
fn enrich_without_inherent_tags_prepends_nothing() {
    let cfg = behaviour_config(&[]);
    let parsed = parse_the_split(toks2(&["-x"]), &cfg);
    let out = enrich(&parsed, &cfg).expect("enrichment should succeed");
    assert_eq!(out.len(), 1);
    assert!(matches!(&out[0], CLElement::CLBehaviouredOption(n, _, None) if n == "x"));
}

#[test]
fn enrich_fails_whole_sequence_on_one_unknown_option() {
    let cfg = behaviour_config(&["global"]);
    // --bogus parses into an inline error plus a bare option element
    let parsed = parse_the_split(toks2(&["-x", "--bogus", "--data"]), &cfg);
    assert!(parsed
        .iter()
        .any(|e| matches!(e, CLElement::CLOption(n, None) if n == "bogus")));
    let r = enrich(&parsed, &cfg);
    match r {
        Err(m) => assert_eq!(m, "unknown string option: bogus"),
        Ok(out) => panic!("expected enrichment to fail, got {:?}", out),
    }
}

#[test]
fn enrich_passes_other_elements_through() {
    let cfg = behaviour_config(&[]);
    let parsed = parse_the_split(toks2(&["--", "free"]), &cfg);
    let out = enrich(&parsed, &cfg).expect("enrichment should succeed");
    assert_eq!(out.len(), 2);
    assert!(matches!(&out[0], CLElement::CLDoubleDash));
    assert!(matches!(&out[1], CLElement::CLArgument(_)));
}

#[test]
fn behaviour_lookup_dispatches_on_name_length() {
    let cfg = behaviour_config(&[]);
    let short = cfg.get_behaviours(&String::from("x")).expect("short option");
    assert_eq!(short, vec![String::from("extracts"), String::from("reads")]);
    let long = cfg.get_behaviours(&String::from("data")).expect("long option");
    assert_eq!(long, vec![String::from("writes")]);
    let missing = cfg.get_behaviours(&String::from("nope"));
    assert_eq!(missing.unwrap_err(), "unknown string option: nope");
    let missing_short = cfg.get_behaviours(&String::from("q"));
    assert_eq!(missing_short.unwrap_err(), "unknown char option: q");
}

#[test]
fn option_tables_answer_has_arg_queries() {
    let cfg = behaviour_config(&[]);
    assert_eq!(cfg.does_char_option_have_arg(&'x'), Ok(false));
    assert_eq!(
        cfg.does_char_option_have_arg(&'z'),
        Err(String::from("unknown char option: z"))
    );
    assert_eq!(cfg.does_string_option_have_arg(&String::from("data")), Ok(false));
    assert!(cfg.does_string_option_have_arg(&String::from("zzz")).is_err());
    assert!(!cfg.is_separator('='));
}

#[test]
fn cache_stores_and_serves_grammars() {
    let mut cache = ParserConfigCache::new();
    assert_eq!(cache.size(), 0);
    assert!(cache.get_config("tar").is_err());
    let err = cache.get_config("tar").unwrap_err();
    assert_eq!(err, "no grammar cached for program: tar");

    cache.insert(String::from("tar"), behaviour_config(&[]));
    assert_eq!(cache.size(), 1);
    let got = cache.get_config("tar").expect("cached grammar");
    assert_eq!(got.name, "prog");

    cache.insert(String::from("curl"), behaviour_config(&["net"]));
    assert_eq!(cache.size(), 2);
    assert!(cache.get_config("curl").is_ok());
    assert!(cache.get_config("ssh").is_err());

    cache.clear();
    assert_eq!(cache.size(), 0);
    assert!(cache.get_config("tar").is_err());
}
