use clparse::parse_engine::{get_argument_string, get_split_vec, parse_the_split};
use clparse::parser_config::{CharOption, ConfigFile, ParserConfig, StringOption};
use clparse::parser_structs::{CLArgument, CLElement};

fn make_config(
    seps: &[char],
    shorts: &[(char, bool)],
    longs: &[(&str, bool)],
    glued: bool,
    quotes: bool,
) -> ParserConfig {
    let config_file = ConfigFile {
        name: String::from("prog"),
        has_separatorless_args_for_char_options: glued,
        handle_quotes: quotes,
        string_separators: seps.iter().map(|c| c.to_string()).collect(),
        string_options: longs
            .iter()
            .map(|(n, a)| StringOption {
                option_name: String::from(*n),
                has_arg: Some(*a),
                behaviours: Vec::new(),
            })
            .collect(),
        char_options: shorts
            .iter()
            .map(|(c, a)| CharOption {
                option_name: *c,
                has_arg: Some(*a),
                behaviours: Vec::new(),
            })
            .collect(),
        behaviours: Vec::new(),
    };
    ParserConfig::new(
        String::from("prog"),
        seps.to_vec(),
        shorts.to_vec(),
        longs.iter().map(|(n, a)| (String::from(*n), *a)).collect(),
        glued,
        quotes,
        config_file,
    )
}

fn toks(parts: &[&str]) -> Vec<String> {
    parts.iter().map(|p| String::from(*p)).collect()
}

#[test]
fn tokenizer_splits_on_separators_and_spaces() {
    let cfg = make_config(&['='], &[], &[], false, false);
    assert_eq!(get_split_vec("a=b", &cfg), toks(&["a", "=", "b"]));
    // consecutive separators leave an empty literal between them
    assert_eq!(get_split_vec("a==b", &cfg), toks(&["a", "=", "", "=", "b"]));
    // a space splits but leaves no token of its own
    assert_eq!(get_split_vec("a b", &cfg), toks(&["a", "b"]));
    // a leading space closes an empty buffer
    assert_eq!(get_split_vec(" a", &cfg), toks(&["", "a"]));
    assert_eq!(get_split_vec("ab", &cfg), toks(&["ab"]));
    assert_eq!(get_split_vec("", &cfg), toks(&[]));
}

#[test]
fn bundle_example_from_raw_line() {
    let cfg = make_config(
        &[],
        &[('x', false), ('v', false), ('f', true)],
        &[],
        false,
        false,
    );
    let tokens = get_split_vec("-xvf remotehost:test.tar.gz", &cfg);
    assert_eq!(tokens, toks(&["-xvf", "remotehost:test.tar.gz"]));
    let parsed = parse_the_split(tokens, &cfg);
    assert_eq!(parsed.len(), 3);
    match &parsed[0] {
        CLElement::CLOption(name, None) => assert_eq!(name, "x"),
        other => panic!("expected bare option x, got {:?}", other),
    }
    match &parsed[1] {
        CLElement::CLOption(name, None) => assert_eq!(name, "v"),
        other => panic!("expected bare option v, got {:?}", other),
    }
    match &parsed[2] {
        CLElement::CLOption(name, Some(CLArgument::RemotePath(p))) => {
            assert_eq!(name, "f");
            assert_eq!(p, "remotehost:test.tar.gz");
        },
        other => panic!("expected option f with remote path, got {:?}", other),
    }
}

#[test]
fn quoting_reconstructs_inner_text() {
    let cfg = make_config(&[' '], &[('k', false), ('v', false)], &[("data", false)], false, true);
    let tokens = get_split_vec("-kv \"ha ha\" --data x", &cfg);
    let parsed = parse_the_split(tokens, &cfg);
    let mut free_values = Vec::new();
    for e in &parsed {
        if let CLElement::CLArgument(CLArgument::RawString(s)) = e {
            free_values.push(s.clone());
        }
    }
    // the quoted text comes back as one captured value, quotes stripped
    assert!(free_values.iter().any(|s| s == "ha ha"));
    assert!(parsed
        .iter()
        .any(|e| matches!(e, CLElement::CLOption(n, None) if n == "data")));
}

#[test]
fn unknown_long_option_recovers_inline() {
    let cfg = make_config(&[], &[], &[("known", false)], false, false);
    let parsed = parse_the_split(toks(&["--bogus", "abc"]), &cfg);
    assert_eq!(parsed.len(), 3);
    match &parsed[0] {
        CLElement::ParsingError(Some(m)) => assert_eq!(m, "unknown string option: bogus"),
        other => panic!("expected a parsing error, got {:?}", other),
    }
    match &parsed[1] {
        CLElement::CLOption(name, None) => assert_eq!(name, "bogus"),
        other => panic!("expected bare option bogus, got {:?}", other),
    }
    // parsing continues past the error
    assert!(matches!(
        &parsed[2],
        CLElement::CLArgument(CLArgument::RawString(s)) if s == "abc"
    ));
}

#[test]
fn embedded_split_recovers_known_prefix() {
    let cfg = make_config(&['='], &[], &[("rsh-command", true)], false, false);
    let parsed = parse_the_split(toks(&["--rsh-command=/bin/ssh"]), &cfg);
    assert_eq!(parsed.len(), 1);
    match &parsed[0] {
        CLElement::CLOption(name, Some(CLArgument::LocalPath(p))) => {
            assert_eq!(name, "rsh-command");
            assert_eq!(p, "/bin/ssh");
        },
        other => panic!("expected recovered rsh-command option, got {:?}", other),
    }
}

#[test]
fn embedded_split_prefers_longest_prefix() {
    let cfg = make_config(&['='], &[], &[("a", false), ("a=b", false)], false, false);
    match cfg.try_split_embedded_option("a=b=c") {
        Some((name, value)) => {
            assert_eq!(name, "a=b");
            assert_eq!(value, "c");
        },
        None => panic!("expected an embedded split"),
    }
    assert!(cfg.try_split_embedded_option("x=y").is_none());
}

#[test]
fn long_option_captures_next_token() {
    let cfg = make_config(&[], &[], &[("data", true)], false, false);
    let parsed = parse_the_split(toks(&["--data", "8080"]), &cfg);
    assert_eq!(parsed.len(), 1);
    assert!(matches!(
        &parsed[0],
        CLElement::CLOption(n, Some(CLArgument::U16(8080))) if n == "data"
    ));
}

#[test]
fn missing_value_reports_error() {
    let cfg = make_config(&[], &[], &[("data", true)], false, false);
    let parsed = parse_the_split(toks(&["--data"]), &cfg);
    assert_eq!(parsed.len(), 2);
    match &parsed[0] {
        CLElement::ParsingError(Some(m)) => {
            assert_eq!(m, "no token available for an expected value")
        },
        other => panic!("expected a parsing error, got {:?}", other),
    }
    assert!(matches!(&parsed[1], CLElement::CLOption(n, None) if n == "data"));
}

#[test]
fn unterminated_quote_skips_to_end() {
    let cfg = make_config(&[], &[], &[], false, true);
    let parsed = parse_the_split(toks(&["\"abc", "def"]), &cfg);
    assert_eq!(parsed.len(), 1);
    match &parsed[0] {
        CLElement::ParsingError(Some(m)) => assert_eq!(m, "unterminated quoted value"),
        other => panic!("expected a parsing error, got {:?}", other),
    }
}

#[test]
fn argument_taking_short_option_must_be_last() {
    let cfg = make_config(&[], &[('f', true), ('n', false)], &[], false, false);
    let parsed = parse_the_split(toks(&["-fn", "x"]), &cfg);
    assert_eq!(parsed.len(), 4);
    assert!(matches!(&parsed[0], CLElement::ParsingError(Some(_))));
    assert!(matches!(&parsed[1], CLElement::CLOption(n, None) if n == "f"));
    assert!(matches!(&parsed[2], CLElement::CLOption(n, None) if n == "n"));
    assert!(matches!(
        &parsed[3],
        CLElement::CLArgument(CLArgument::RawString(s)) if s == "x"
    ));
}

#[test]
fn glued_short_option_value_consumes_bundle_rest() {
    let cfg = make_config(&[], &[('n', true)], &[], true, false);
    let parsed = parse_the_split(toks(&["-n5"]), &cfg);
    assert_eq!(parsed.len(), 1);
    assert!(matches!(
        &parsed[0],
        CLElement::CLOption(n, Some(CLArgument::U16(5))) if n == "n"
    ));
}

#[test]
fn unknown_short_option_reports_error_and_continues() {
    let cfg = make_config(&[], &[('a', false)], &[], false, false);
    let parsed = parse_the_split(toks(&["-za"]), &cfg);
    assert_eq!(parsed.len(), 3);
    assert!(matches!(&parsed[0], CLElement::ParsingError(Some(m)) if m == "unknown char option: z"));
    assert!(matches!(&parsed[1], CLElement::CLOption(n, None) if n == "z"));
    assert!(matches!(&parsed[2], CLElement::CLOption(n, None) if n == "a"));
}

#[test]
fn double_dash_and_separator_tokens() {
    let cfg = make_config(&['='], &[], &[], false, false);
    let parsed = parse_the_split(toks(&["--", "="]), &cfg);
    assert_eq!(parsed.len(), 2);
    assert!(matches!(&parsed[0], CLElement::CLDoubleDash));
    assert!(matches!(&parsed[1], CLElement::CLSep('=')));
}

#[test]
fn lone_dash_produces_nothing() {
    let cfg = make_config(&[], &[], &[], false, false);
    let parsed = parse_the_split(toks(&["-"]), &cfg);
    assert_eq!(parsed.len(), 0);
}

#[test]
fn output_length_is_linear_in_input() {
    let cfg = make_config(&['='], &[('a', false)], &[("data", true)], false, true);
    let tokens = toks(&["-zzz", "--bogus", "=", "free", "--data", "x", "--"]);
    let total_chars: usize = tokens.iter().map(|t| t.chars().count()).sum();
    let bound = 2 * total_chars + 2 * tokens.len();
    let parsed = parse_the_split(tokens, &cfg);
    assert!(parsed.len() <= bound);
}

#[test]
fn capture_function_reports_positions() {
    let cfg = make_config(&[], &[], &[], false, true);
    let tokens = toks(&["plain", "\"a", "b\"", "tail"]);
    match get_argument_string(&cfg, &tokens, 0) {
        Ok((v, next)) => {
            assert_eq!(v, "plain");
            assert_eq!(next, 1);
        },
        Err(e) => panic!("unexpected capture failure: {}", e),
    }
    match get_argument_string(&cfg, &tokens, 1) {
        Ok((v, next)) => {
            assert_eq!(v, "ab");
            assert_eq!(next, 3);
        },
        Err(e) => panic!("unexpected capture failure: {}", e),
    }
    assert!(get_argument_string(&cfg, &tokens, 4).is_err());
}
