use upskill::cli::{flag_takes_value, is_help, parse_args};

fn argv(items: &[&str]) -> Vec<String> {
    items.iter().map(|s| s.to_string()).collect()
}

#[test]
fn id_flag_overrides_positional() {
    let args = parse_args(vec![
        "upskill".into(),
        "1".into(),
        "-id".into(),
        "2".into(),
    ]);
    assert_eq!(args.question_id.as_deref(), Some("2"));
    assert_eq!(args.positional_id.as_deref(), Some("1"));
}

#[test]
fn default_file() {
    let args = parse_args(vec!["upskill".into()]);
    assert_eq!(args.file_path, "testpoint.in");
}

#[test]
fn selected_id_prefers_id_flag() {
    let args = parse_args(argv(&["upskill", "1", "-id", "2"]));
    assert_eq!(args.selected_id().as_deref(), Some("2"));
    let args = parse_args(argv(&["upskill", "7"]));
    assert_eq!(args.selected_id().as_deref(), Some("7"));
    let args = parse_args(argv(&["upskill"]));
    assert_eq!(args.selected_id(), None);
}

#[test]
fn file_flag_spellings() {
    for flag in ["-file", "--file", "-f"] {
        let args = parse_args(argv(&["upskill", flag, "a.in", "3"]));
        assert_eq!(args.file_path, "a.in");
        assert_eq!(args.positional_id.as_deref(), Some("3"));
        assert!(!args.help);
    }
}

#[test]
fn id_flag_spellings() {
    for flag in ["-id", "--id"] {
        let args = parse_args(argv(&["upskill", flag, "q"]));
        assert_eq!(args.question_id.as_deref(), Some("q"));
        assert_eq!(args.positional_id, None);
    }
}

#[test]
fn help_flag_spellings() {
    for flag in ["-help", "--help", "-h"] {
        let args = parse_args(argv(&["upskill", flag]));
        assert!(args.help);
        assert_eq!(args.file_path, "testpoint.in");
    }
}

#[test]
fn flag_without_value_is_skipped() {
    let args = parse_args(argv(&["upskill", "-id"]));
    assert_eq!(args.question_id, None);
    let args = parse_args(argv(&["upskill", "-file"]));
    assert_eq!(args.file_path, "testpoint.in");
}

#[test]
fn flag_value_may_look_like_a_flag() {
    let args = parse_args(argv(&["upskill", "-id", "-file", "x"]));
    assert_eq!(args.question_id.as_deref(), Some("-file"));
    assert_eq!(args.file_path, "testpoint.in");
    assert_eq!(args.positional_id.as_deref(), Some("x"));
}

#[test]
fn only_first_positional_counts_and_dashes_are_ignored() {
    let args = parse_args(argv(&["upskill", "-z", "a", "b"]));
    assert_eq!(args.positional_id.as_deref(), Some("a"));
    let args = parse_args(argv(&["upskill", "-id", "1", "-id", "2"]));
    assert_eq!(args.question_id.as_deref(), Some("2"));
}

#[test]
fn program_name_is_not_an_argument() {
    let args = parse_args(argv(&["-h"]));
    assert!(!args.help);
    let args = parse_args(Vec::new());
    assert_eq!(args.file_path, "testpoint.in");
}

#[test]
fn flag_classification() {
    assert!(is_help("-help"));
    assert!(is_help("--help"));
    assert!(is_help("-h"));
    assert!(!is_help("-H"));
    assert!(flag_takes_value("-file"));
    assert!(flag_takes_value("--file"));
    assert!(flag_takes_value("-f"));
    assert!(flag_takes_value("-id"));
    assert!(flag_takes_value("--id"));
    assert!(!flag_takes_value("-x"));
    assert!(!flag_takes_value("id"));
}

#[test]
fn help_flag_as_a_value_is_not_help() {
    let args = parse_args(argv(&["upskill", "-id", "-h"]));
    assert!(!args.help);
    assert_eq!(args.question_id.as_deref(), Some("-h"));
    let args = parse_args(argv(&["upskill", "-f", "x", "--help"]));
    assert!(args.help);
}
