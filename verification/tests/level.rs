//! Dispatcher behaviour: registration, parsing policy, and command
//! resolution.

use hiercmd::{CmdError, Level, Outcome};

fn strs(args: &[&str]) -> Vec<String> {
    args.iter().map(|s| s.to_string()).collect()
}

#[test]
fn duplicate_command_rejected_at_registration() {
    let mut l = Level::new("demo", ());
    l.cmd("list", "list the things").expect("first");
    let e = l.cmd("list", "list them again").unwrap_err();
    assert!(matches!(e, CmdError::DuplicateCommand(_)));
    assert_eq!(e.message(), "duplicate command \"list\"");
    // A distinct name still registers fine afterwards.
    l.cmd("info", "describe a thing").expect("distinct");
}

#[test]
fn resolution_accepts_name_and_alias_only() {
    for token in ["list", "ls"] {
        let mut l = Level::new("demo", 7u32);
        l.cmda("list", "ls", "list the things").expect("cmd");
        l.cmd("info", "describe a thing").expect("cmd");
        l.bind_args(strs(&[token, "extra"]));
        match l.select().expect("configured") {
            Outcome::Success(sel) => {
                assert_eq!(sel.command_name(), "list");
                assert_eq!(*sel.context(), 7u32);
                let child = sel.child_level();
                assert_eq!(*child.context(), 7u32);
            }
            _ => panic!("expected a selection for {token}"),
        }
    }

    let mut l = Level::new("demo", ());
    l.cmda("list", "ls", "list the things").expect("cmd");
    l.bind_args(strs(&["frobnicate"]));
    match l.select().expect("configured") {
        Outcome::Fatal(usage, msg) => {
            assert_eq!(msg, "command \"frobnicate\" not understood");
            assert!(usage.contains("Usage: demo"));
        }
        _ => panic!("expected a fatal outcome"),
    }
}

#[test]
fn no_commands_is_a_configuration_error() {
    let mut l = Level::new("demo", ());
    l.bind_args(strs(&["anything"]));
    let e = match l.select() {
        Err(e) => e,
        Ok(_) => panic!("expected a configuration error"),
    };
    assert!(matches!(e, CmdError::NoCommands));
    assert_eq!(e.message(), "no commands provided by consumer");
}

#[test]
fn no_positional_argument_asks_for_a_command() {
    let mut l = Level::new("demo", ());
    l.cmd("list", "list the things").expect("cmd");
    l.bind_args(strs(&[]));
    match l.select().expect("configured") {
        Outcome::Fatal(_, msg) => assert_eq!(msg, "choose a command"),
        _ => panic!("expected a fatal outcome"),
    }
}

#[test]
fn missing_required_options_reported_together() {
    let mut l = Level::new("demo", ());
    l.reqopt("f", "file", "input file", "FILE");
    l.reqopt("", "output", "output file", "FILE");
    l.bind_args(strs(&[]));
    match l.parse() {
        Outcome::Fatal(_, msg) => {
            assert_eq!(msg, "required options missing: -f (--file), --output");
        }
        _ => panic!("expected a fatal outcome"),
    }
}

#[test]
fn present_required_options_pass() {
    let mut l = Level::new("demo", ());
    l.reqopt("f", "file", "input file", "FILE");
    l.bind_args(strs(&["--file", "x.txt", "rest"]));
    match l.parse() {
        Outcome::Success(args) => {
            assert_eq!(args.args(), &vec!["rest".to_string()]);
            assert_eq!(args.opts().opt_str("f"), Some("x.txt".to_string()));
        }
        _ => panic!("expected success"),
    }
}

#[test]
fn mutually_exclusive_conflict_reported_together() {
    let mut l = Level::new("demo", ());
    l.optflag("a", "", "first mode");
    l.optflag("b", "", "second mode");
    l.optflag("c", "", "third mode");
    l.mutually_exclusive(&[("a", ""), ("b", ""), ("c", "")]);
    l.bind_args(strs(&["-a", "-c"]));
    match l.parse() {
        Outcome::Fatal(_, msg) => {
            assert_eq!(msg, "-a and -c are mutually exclusive");
        }
        _ => panic!("expected a fatal outcome"),
    }

    let mut l = Level::new("demo", ());
    l.optflag("a", "", "first mode");
    l.optflag("b", "", "second mode");
    l.mutually_exclusive(&[("a", ""), ("b", "")]);
    l.bind_args(strs(&["-a"]));
    assert!(matches!(l.parse(), Outcome::Success(_)));
}

#[test]
fn help_short_circuits_with_usage() {
    let mut l = Level::new("demo", ());
    l.cmd("list", "list the things").expect("cmd");
    l.bind_args(strs(&["--help"]));
    match l.select().expect("configured") {
        Outcome::HelpRequested(usage) => {
            assert!(usage.contains("Usage: demo"));
            assert!(usage.contains("--help"));
            assert!(usage.contains("COMMAND"));
            assert!(usage.contains("list the things"));
        }
        _ => panic!("expected help"),
    }
}

#[test]
fn hidden_commands_resolve_but_stay_out_of_usage() {
    let mut l = Level::new("demo", ());
    l.cmd("list", "list the things").expect("cmd");
    l.hcmd("debug", "secret internals").expect("cmd");
    let usage = l.gen_usage();
    assert!(usage.contains("list the things"));
    assert!(!usage.contains("secret internals"));
    l.bind_args(strs(&["debug"]));
    match l.select().expect("configured") {
        Outcome::Success(sel) => assert_eq!(sel.command_name(), "debug"),
        _ => panic!("expected a selection"),
    }
}

#[test]
fn table_flags_configure_the_table() {
    let mut l = Level::new("demo", ());
    l.add_column("id", 8, true);
    l.add_column("name", 24, true);
    l.bind_args(strs(&["-o", "NAME", "-p"]));
    match l.parse() {
        Outcome::Success(args) => {
            let mut t = args.table();
            let mut row = hiercmd::table::Row::default();
            row.add_str("name", "zed");
            row.add_bytes("id", 2048);
            t.add_row(row);
            assert_eq!(t.output().expect("output"), "NAME\nzed\n");
        }
        _ => panic!("expected success"),
    }
}

#[test]
fn tab_separated_mode_via_header_flag() {
    let mut l = Level::new("demo", ());
    l.add_column("id", 8, true);
    l.add_column("name", 24, true);
    l.bind_args(strs(&["-H"]));
    match l.parse() {
        Outcome::Success(args) => {
            let mut t = args.table();
            let mut row = hiercmd::table::Row::default();
            row.add_u64("id", 5);
            row.add_str("name", "has\ttab");
            t.add_row(row);
            assert_eq!(t.output().expect("output"), "5\thas tab\n");
        }
        _ => panic!("expected success"),
    }
}

#[test]
fn invalid_output_column_fails_unless_lazy() {
    let mut l = Level::new("demo", ());
    l.add_column("id", 8, true);
    l.bind_args(strs(&["-o", "zz,id,aa"]));
    match l.parse() {
        Outcome::Fatal(_, msg) => assert_eq!(msg, "invalid column names: aa, zz"),
        _ => panic!("expected a fatal outcome"),
    }

    let mut l = Level::new("demo", ());
    l.add_column("id", 8, true);
    l.lazy_column_validation(true);
    l.bind_args(strs(&["-o", "zz"]));
    assert!(matches!(l.parse(), Outcome::Success(_)));
}

#[test]
fn unknown_flag_is_fatal_with_usage() {
    let mut l = Level::new("demo", ());
    l.bind_args(strs(&["--nonsense"]));
    match l.parse() {
        Outcome::Fatal(usage, msg) => {
            assert!(usage.contains("Usage: demo"));
            assert!(msg.contains("nonsense"));
        }
        _ => panic!("expected a fatal outcome"),
    }
}

#[test]
fn flags_stop_at_first_free_argument() {
    let mut l = Level::new("demo", ());
    l.cmd("run", "run a thing").expect("cmd");
    l.bind_args(strs(&["run", "--help"]));
    match l.select().expect("configured") {
        Outcome::Success(sel) => {
            // The flag after the command token belongs to the child level.
            let child = sel.child_level();
            let mut child = child;
            match child.parse() {
                Outcome::HelpRequested(_) => {}
                _ => panic!("child should see --help"),
            }
        }
        _ => panic!("expected a selection"),
    }
}

#[test]
fn usage_lists_columns_sorted() {
    let mut l = Level::new("demo", ());
    l.add_column("name", 24, true);
    l.add_column("id", 8, true);
    let usage = l.gen_usage();
    assert!(usage.contains("Columns:"));
    let id_at = usage.find("    id").expect("id listed");
    let name_at = usage.find("    name").expect("name listed");
    assert!(id_at < name_at);
}

#[test]
fn sort_flags_order_the_rows() {
    let mut l = Level::new("demo", ());
    l.add_column("id", 4, true);
    l.bind_args(strs(&["-s", "id"]));
    match l.parse() {
        Outcome::Success(args) => {
            let mut t = args.table();
            for id in [3u64, 1, 2] {
                let mut row = hiercmd::table::Row::default();
                row.add_u64("id", id);
                t.add_row(row);
            }
            assert_eq!(t.output().expect("output"), "ID\n1\n2\n3\n");
        }
        _ => panic!("expected success"),
    }

    let mut l = Level::new("demo", ());
    l.add_column("id", 4, true);
    l.bind_args(strs(&["-S", "id", "-H"]));
    match l.parse() {
        Outcome::Success(args) => {
            let mut t = args.table();
            for id in [3u64, 1, 2] {
                let mut row = hiercmd::table::Row::default();
                row.add_u64("id", id);
                t.add_row(row);
            }
            assert_eq!(t.output().expect("output"), "3\n2\n1\n");
        }
        _ => panic!("expected success"),
    }
}

#[test]
fn usage_args_hint_controls_synopsis() {
    let mut l = Level::new("demo", ());
    assert!(l.gen_usage().contains("[ARGS...]"));
    l.usage_args(Some("FILE"));
    assert!(l.gen_usage().contains(" FILE"));
    assert!(!l.gen_usage().contains("[ARGS...]"));
    l.usage_args(None);
    assert!(!l.gen_usage().contains("[ARGS...]"));
}

#[test]
fn post_parse_columns_extend_the_table() {
    let mut l = Level::new("demo", ());
    l.add_column("id", 4, true);
    l.lazy_column_validation(true);
    l.bind_args(strs(&["-o", "id,extra"]));
    match l.parse() {
        Outcome::Success(mut args) => {
            args.add_column("extra", 6, true);
            let mut t = args.table();
            let mut row = hiercmd::table::Row::default();
            row.add_u64("id", 1);
            row.add_str("extra", "x");
            t.add_row(row);
            assert_eq!(t.output().expect("output"), "ID   EXTRA\n1    x\n");
        }
        _ => panic!("expected success"),
    }
}

#[test]
fn usage_columns_sorted_case_insensitively() {
    let mut l = Level::new("demo", ());
    l.add_column("Bravo", 8, true);
    l.add_column("alpha", 8, true);
    let usage = l.gen_usage();
    let alpha_at = usage.find("    alpha").expect("alpha listed");
    let bravo_at = usage.find("    Bravo").expect("Bravo listed");
    assert!(alpha_at < bravo_at);
}
