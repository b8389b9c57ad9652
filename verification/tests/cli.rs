use zipkirei::cli::{parse_command, Command};

#[test]
fn parse_command_collects_repeatable_excludes_and_new_output() {
    let args = vec![
        "zipkirei".to_string(),
        "--dry-run".to_string(),
        "--exclude".to_string(),
        ".gitkeep".to_string(),
        "--exclude".to_string(),
        "Thumbs.db".to_string(),
        "--new".to_string(),
        "clean.zip".to_string(),
        "input.zip".to_string(),
    ];

    let command = parse_command(&args).unwrap();
    match command {
        Command::Process(cli) => {
            assert_eq!(cli.zip_path, "input.zip");
            assert_eq!(cli.new_file.as_deref(), Some("clean.zip"));
            assert!(cli.options.dry_run);
            assert!(!cli.options.fast);
            assert!(!cli.options.keep_backslashes);
            assert_eq!(
                cli.options.extra_excludes,
                vec![".gitkeep".to_string(), "Thumbs.db".to_string()]
            );
        }
        Command::Help => panic!("expected process command"),
    }
}

#[test]
fn parse_command_accepts_fast_mode() {
    let args = vec![
        "zipkirei".to_string(),
        "--fast".to_string(),
        "input.zip".to_string(),
    ];

    let command = parse_command(&args).unwrap();
    match command {
        Command::Process(cli) => assert!(cli.options.fast),
        Command::Help => panic!("expected process command"),
    }
}

#[test]
fn parse_command_accepts_keep_backslashes() {
    let args = vec![
        "zipkirei".to_string(),
        "--keep-backslashes".to_string(),
        "input.zip".to_string(),
    ];

    let command = parse_command(&args).unwrap();
    match command {
        Command::Process(cli) => assert!(cli.options.keep_backslashes),
        Command::Help => panic!("expected process command"),
    }
}

#[test]
fn parse_command_rejects_fast_with_new_output() {
    let args = vec![
        "zipkirei".to_string(),
        "--fast".to_string(),
        "--new".to_string(),
        "out.zip".to_string(),
        "input.zip".to_string(),
    ];

    let err = match parse_command(&args) {
        Ok(_) => panic!("expected --fast with --new error"),
        Err(err) => err,
    };
    assert_eq!(err.to_string(), "--fast cannot be used with --new");
}

#[test]
fn parse_command_rejects_unknown_option() {
    let args = vec![
        "zipkirei".to_string(),
        "--wat".to_string(),
        "input.zip".to_string(),
    ];

    let err = match parse_command(&args) {
        Ok(Command::Help) => panic!("expected error, got help"),
        Ok(Command::Process(_)) => panic!("expected error, got process command"),
        Err(err) => err,
    };
    assert!(err.to_string().contains("unknown option"));
    assert!(err.to_string().contains("--wat"));
}

#[test]
fn parse_command_requires_option_values() {
    let exclude_args = vec!["zipkirei".to_string(), "--exclude".to_string()];
    let exclude_err = match parse_command(&exclude_args) {
        Ok(_) => panic!("expected exclude argument error"),
        Err(err) => err,
    };
    assert_eq!(exclude_err.to_string(), "--exclude requires an argument");

    let new_args = vec!["zipkirei".to_string(), "--new".to_string()];
    let new_err = match parse_command(&new_args) {
        Ok(_) => panic!("expected new argument error"),
        Err(err) => err,
    };
    assert_eq!(new_err.to_string(), "--new requires an argument");
}

#[test]
fn parse_command_rejects_multiple_zip_paths() {
    let args = vec![
        "zipkirei".to_string(),
        "first.zip".to_string(),
        "second.zip".to_string(),
    ];

    let err = match parse_command(&args) {
        Ok(_) => panic!("expected multiple path error"),
        Err(err) => err,
    };
    assert_eq!(err.to_string(), "multiple ZIP file paths given");
}


fn arguments(list: &[&str]) -> Vec<String> {
    list.iter().map(|a| a.to_string()).collect()
}

#[test]
fn parse_command_shows_help() {
    for list in [
        vec!["zipkirei"],
        vec!["zipkirei", "-h"],
        vec!["zipkirei", "--fast", "--help", "--wat"],
    ] {
        assert!(matches!(
            parse_command(&arguments(&list)),
            Ok(Command::Help)
        ));
    }
}

#[test]
fn parse_command_requires_a_file() {
    let err = parse_command(&arguments(&["zipkirei", "--dry-run"])).unwrap_err();
    assert_eq!(err.to_string(), "no ZIP file specified");
}

#[test]
fn parse_command_reads_all_flags() {
    let args = arguments(&[
        "zipkirei",
        "--not-utf-8",
        "--no-default-exclude",
        "--fast",
        "a.zip",
        "--dry-run",
    ]);
    match parse_command(&args).unwrap() {
        Command::Process(cli) => {
            assert_eq!(cli.zip_path, "a.zip");
            assert_eq!(cli.new_file, None);
            assert!(cli.options.not_utf8);
            assert!(cli.options.no_default_exclude);
            assert!(cli.options.fast);
            assert!(cli.options.dry_run);
            assert!(!cli.options.keep_backslashes);
            assert!(cli.options.extra_excludes.is_empty());
        }
        Command::Help => panic!("expected process command"),
    }
}

#[test]
fn parse_command_takes_the_last_output_and_any_value() {
    let args = arguments(&["zipkirei", "--new", "x", "--new", "--fast", "a.zip"]);
    match parse_command(&args).unwrap() {
        Command::Process(cli) => {
            assert_eq!(cli.new_file.as_deref(), Some("--fast"));
            assert!(!cli.options.fast);
        }
        Command::Help => panic!("expected process command"),
    }
}

#[test]
fn parse_command_names_the_unknown_option() {
    let err = parse_command(&arguments(&["zipkirei", "-x"])).unwrap_err();
    assert_eq!(err.to_string(), "unknown option: '-x'");
}
