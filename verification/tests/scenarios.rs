use clargs::app::App;
use clargs::arg::Arg;
use clargs::errors::ParseError;

#[test]
fn positional_flag_mix() {
    let mut app = App::new("prog");
    app.untagged_required_arg("first_input")
        .untagged_optional_arg("second_input")
        .arg(Arg::new("TestArg").add_short("-vv"));

    let input = vec!["prog".to_string(), "hello".to_string(), "-vv".to_string()];
    let result = app.parse_internal(input, &Vec::new()).ok().unwrap();

    assert_eq!(result.get("path").unwrap(), "prog");
    assert_eq!(result.get("first_input").unwrap(), "hello");
    assert_eq!(result.get("TestArg").unwrap(), "true");
    assert!(!result.contains_key("second_input"));
}

#[test]
fn positional_only_stream() {
    let mut app = App::new("prog");
    app.untagged_required_arg("alpha")
        .untagged_required_arg("beta")
        .arg(Arg::new("Flag").add_short("-f"));

    let input = vec!["prog".to_string(), "one".to_string(), "two".to_string()];
    let result = app.parse_internal(input, &Vec::new()).ok().unwrap();

    assert_eq!(result.get("path").unwrap(), "prog");
    assert_eq!(result.get("alpha").unwrap(), "one");
    assert_eq!(result.get("beta").unwrap(), "two");
    assert!(!result.contains_key("Flag"));
}

#[test]
fn default_value_fallbacks() {
    let mut app = App::new("prog");
    app.untagged_required_arg("first_input").arg(
        Arg::new("HasDefault")
            .add_long("--default")
            .accepts_value()
            .set_default("Default Value"),
    );

    // never supplied: the default fills in
    let result = app
        .parse_internal(vec!["prog".to_string(), "req".to_string()], &Vec::new())
        .ok()
        .unwrap();
    assert_eq!(result.get("HasDefault").unwrap(), "Default Value");

    // supplied as the last token, value-accepting, nothing follows: the default
    let result = app
        .parse_internal(
            vec!["prog".to_string(), "req".to_string(), "--default".to_string()],
            &Vec::new(),
        )
        .ok()
        .unwrap();
    assert_eq!(result.get("HasDefault").unwrap(), "Default Value");

    // supplied with a following value: the value
    let result = app
        .parse_internal(
            vec![
                "prog".to_string(),
                "req".to_string(),
                "--default".to_string(),
                "Custom".to_string(),
            ],
            &Vec::new(),
        )
        .ok()
        .unwrap();
    assert_eq!(result.get("HasDefault").unwrap(), "Custom");
}

#[test]
fn required_flag_missing() {
    let mut app = App::new("prog");
    app.arg(Arg::new("Needed").add_long("--needed").required());

    let result = app.parse_internal(vec!["prog".to_string()], &Vec::new());
    match result.err().unwrap() {
        ParseError::RequiredArgumentMissing(names) => {
            assert_eq!(names, vec!["Needed".to_string()]);
        }
        _ => panic!("expected RequiredArgumentMissing"),
    }
}

#[test]
fn required_flag_satisfied_by_environment() {
    let mut app = App::new("prog");
    app.arg(
        Arg::new("Needed")
            .add_long("--needed")
            .required()
            .environment("NEEDED_VAR"),
    );

    // variable absent: the parse fails
    let result = app.parse_internal(vec!["prog".to_string()], &Vec::new());
    assert!(matches!(
        result.err().unwrap(),
        ParseError::RequiredArgumentMissing { .. }
    ));

    // variable present: the flag resolves to the sentinel
    let env = vec!["NEEDED_VAR".to_string()];
    let result = app.parse_internal(vec!["prog".to_string()], &env).ok().unwrap();
    assert_eq!(result.get("Needed").unwrap(), "true");
}

#[test]
fn environment_binds_default() {
    let mut app = App::new("prog");
    app.arg(
        Arg::new("Port")
            .add_long("--port")
            .accepts_value()
            .set_default("8080")
            .environment("PORT_SET"),
    );

    let env = vec!["OTHER".to_string(), "PORT_SET".to_string()];
    let result = app.parse_internal(vec!["prog".to_string()], &env).ok().unwrap();
    assert_eq!(result.get("Port").unwrap(), "8080");
}

#[test]
fn value_flag_does_not_swallow_next_flag() {
    let mut app = App::new("prog");
    app.arg(Arg::new("HasValue").add_short("-v").accepts_value())
        .arg(Arg::new("Other").add_short("-f"));

    // no default: the lookahead sees the next flag, so the value is missing
    let result = app.parse_internal(
        vec!["prog".to_string(), "-v".to_string(), "-f".to_string()],
        &Vec::new(),
    );
    match result.err().unwrap() {
        ParseError::MissingArgumentValue(name) => assert_eq!(name, "HasValue"),
        _ => panic!("expected MissingArgumentValue"),
    }

    // with a default the flag falls back and the following flag still counts
    let mut app = App::new("prog");
    app.arg(
        Arg::new("HasValue")
            .add_short("-v")
            .accepts_value()
            .set_default("fallback"),
    )
    .arg(Arg::new("Other").add_short("-f"));

    let result = app
        .parse_internal(
            vec!["prog".to_string(), "-v".to_string(), "-f".to_string()],
            &Vec::new(),
        )
        .ok()
        .unwrap();
    assert_eq!(result.get("HasValue").unwrap(), "fallback");
    assert_eq!(result.get("Other").unwrap(), "true");
}

#[test]
fn value_flag_last_without_default_fails() {
    let mut app = App::new("prog");
    app.arg(Arg::new("HasValue").add_short("-v").accepts_value());

    let result = app.parse_internal(vec!["prog".to_string(), "-v".to_string()], &Vec::new());
    match result.err().unwrap() {
        ParseError::MissingArgumentValue(name) => assert_eq!(name, "HasValue"),
        _ => panic!("expected MissingArgumentValue"),
    }
}

#[test]
fn too_many_arguments() {
    let mut app = App::new("prog");
    app.untagged_required_arg("only_slot");

    let result = app.parse_internal(
        vec![
            "prog".to_string(),
            "fits".to_string(),
            "spills".to_string(),
        ],
        &Vec::new(),
    );
    match result.err().unwrap() {
        ParseError::TooManyArguments(token) => assert_eq!(token, "spills"),
        _ => panic!("expected TooManyArguments"),
    }
}

#[test]
fn too_few_arguments() {
    let mut app = App::new("prog");
    app.untagged_required_arg("first").untagged_required_arg("second");

    let result = app.parse_internal(vec!["prog".to_string(), "one".to_string()], &Vec::new());
    assert!(matches!(
        result.err().unwrap(),
        ParseError::TooFewArguments
    ));
}

#[test]
fn empty_stream_gets_placeholder_path() {
    let app = App::new("prog");
    let result = app.parse_internal(Vec::new(), &Vec::new()).ok().unwrap();
    assert_eq!(result.get("path").unwrap(), ".\\");
}

#[test]
fn duplicate_flag_through_different_aliases() {
    let mut app = App::new("prog");
    app.arg(Arg::new("Multi").add_short("-1").add_long("-one"));

    let result = app.parse_internal(
        vec!["prog".to_string(), "-one".to_string(), "-1".to_string()],
        &Vec::new(),
    );
    match result.err().unwrap() {
        ParseError::DuplicateArgument(name) => assert_eq!(name, "Multi"),
        _ => panic!("expected DuplicateArgument"),
    }
}

#[test]
fn repeated_parses_share_no_state() {
    let mut app = App::new("prog");
    app.untagged_required_arg("first_input")
        .arg(Arg::new("TestArg").add_short("-vv"));

    // first run completes the flag
    let result = app
        .parse_internal(
            vec!["prog".to_string(), "one".to_string(), "-vv".to_string()],
            &Vec::new(),
        )
        .ok()
        .unwrap();
    assert_eq!(result.get("TestArg").unwrap(), "true");

    // the same token in a fresh run is no duplicate, and an earlier completion
    // never leaks into a run that does not supply the flag
    let result = app
        .parse_internal(
            vec!["prog".to_string(), "two".to_string(), "-vv".to_string()],
            &Vec::new(),
        )
        .ok()
        .unwrap();
    assert_eq!(result.get("first_input").unwrap(), "two");
    assert_eq!(result.get("TestArg").unwrap(), "true");

    let result = app
        .parse_internal(
            vec!["prog".to_string(), "three".to_string()],
            &Vec::new(),
        )
        .ok()
        .unwrap();
    assert!(!result.contains_key("TestArg"));
}

#[test]
fn default_clears_required() {
    let mut app = App::new("prog");
    app.arg(
        Arg::new("Soft")
            .add_long("--soft")
            .accepts_value()
            .required()
            .set_default("easy"),
    );

    // a default set after required(): the argument is not required any more
    let result = app.parse_internal(vec!["prog".to_string()], &Vec::new()).ok().unwrap();
    assert_eq!(result.get("Soft").unwrap(), "easy");

    // required() after a default changes nothing either
    let mut app = App::new("prog");
    app.arg(
        Arg::new("Soft")
            .add_long("--soft")
            .accepts_value()
            .set_default("easy")
            .required(),
    );
    let result = app.parse_internal(vec!["prog".to_string()], &Vec::new()).ok().unwrap();
    assert_eq!(result.get("Soft").unwrap(), "easy");
}

#[test]
fn unreachable_flag_with_default_resolves() {
    // a declaration with neither short nor long tokens can still be satisfied
    // by its default
    let mut app = App::new("prog");
    app.arg(Arg::new("Quiet").accepts_value().set_default("silent"));

    let result = app.parse_internal(vec!["prog".to_string()], &Vec::new()).ok().unwrap();
    assert_eq!(result.get("Quiet").unwrap(), "silent");
}

#[test]
fn manual_help_and_version_detection() {
    let mut app = App::new("prog");
    assert!(!app.has_manual_help());
    assert!(!app.has_manual_version());

    // detection folds case, so "-HELP" collides with the reserved "-help"
    app.arg(Arg::new("MyHelp").add_short("-HELP"));
    assert!(app.has_manual_help());
    assert!(!app.has_manual_version());

    app.arg(Arg::new("MyVersion").add_long("--Version"));
    assert!(app.has_manual_help());
    assert!(app.has_manual_version());

    // a raised flag stays raised
    app.arg(Arg::new("Harmless").add_short("-x"));
    assert!(app.has_manual_help());
    assert!(app.has_manual_version());
}

#[test]
fn arg_info_joins_aliases() {
    let arg = Arg::new("Multi")
        .add_short("-1")
        .add_short("-2")
        .add_short("-3")
        .add_long("-one")
        .add_long("-two")
        .help("Help info here!");

    let (short, long, value, help) = arg.get_arg_info();
    assert_eq!(short, "-1,-2,-3");
    assert_eq!(long, "-one,-two");
    assert!(!value);
    assert_eq!(help, "Help info here!");

    let bare = Arg::new("Bare").accepts_value();
    let (short, long, value, help) = bare.get_arg_info();
    assert_eq!(short, "");
    assert_eq!(long, "");
    assert!(value);
    assert_eq!(help, "");
}

#[test]
fn get_arg_finds_declarations_by_name() {
    let mut app = App::new("prog");
    app.arg(Arg::new("Known").add_short("-k").help("the known one"));

    let found = app.get_arg("Known").unwrap();
    let (_, _, _, help) = found.get_arg_info();
    assert_eq!(help, "the known one");

    assert!(app.get_arg("Unknown").is_none());
}

#[test]
fn app_metadata_getters() {
    let mut app = App::new("prog");
    assert_eq!(app.get_exec_name(), "prog");
    assert!(app.get_pretty_name().is_none());
    app.pretty_name("A Program")
        .version("0.1")
        .author("someone")
        .about("does things")
        .untagged_required_arg("input")
        .untagged_optional_arg("extra");

    assert_eq!(app.get_pretty_name().unwrap(), "A Program");
    assert_eq!(app.get_version().unwrap(), "0.1");
    assert_eq!(app.get_author().unwrap(), "someone");
    assert_eq!(app.get_about().unwrap(), "does things");
    assert_eq!(app.untagged_required(), &vec!["input".to_string()]);
    assert_eq!(app.untagged_optional(), &vec!["extra".to_string()]);
    assert_eq!(app.args().len(), 0);
}

#[test]
fn flag_value_can_equal_flag_name_text() {
    // a token is consumed as a value only when it matches no declared alias;
    // arbitrary other text is taken verbatim
    let mut app = App::new("prog");
    app.arg(Arg::new("HasValue").add_short("-v").accepts_value());

    let result = app
        .parse_internal(
            vec!["prog".to_string(), "-v".to_string(), "-w".to_string()],
            &Vec::new(),
        )
        .ok()
        .unwrap();
    assert_eq!(result.get("HasValue").unwrap(), "-w");
}

#[test]
fn later_binding_wins() {
    // a flag whose name collides with a positional slot's name: the flag is
    // resolved later and its binding replaces the positional one
    let mut app = App::new("prog");
    app.untagged_required_arg("shared")
        .arg(Arg::new("shared").add_short("-s"));

    let result = app
        .parse_internal(
            vec!["prog".to_string(), "value".to_string(), "-s".to_string()],
            &Vec::new(),
        )
        .ok()
        .unwrap();
    assert_eq!(result.get("shared").unwrap(), "true");
}
