use rranch::args;
use rranch::argparser;
use rranch::config::{Client, Config, Master, Templates};

#[test]
fn declared_options_carry_their_prefixes() {
    let a = argparser::Arg::new("c", "checkout", "Fetches pkgbuild", Some("name".to_string()));
    assert_eq!(a.short, "-c");
    assert_eq!(a.long, "--checkout");
    assert_eq!(a.desc, "Fetches pkgbuild");
    assert_eq!(a.param, Some("name".to_string()));
}

#[test]
fn lookup_matches_either_spelling() {
    let mut p = argparser::ArgParser::new(Vec::new(), Some("test table"), Vec::new());
    p.define_arg(argparser::Arg::new("c", "checkout", "x", None));
    p.define_arg(argparser::Arg::new("s", "submit", "y", None));
    assert_eq!(p.get_arg_by_name("--submit").unwrap().short, "-s");
    assert_eq!(p.get_arg_by_name("-c").unwrap().long, "--checkout");
    assert!(p.get_arg_by_name("--nope").is_none());
    assert_eq!(p.desc, "test table");
    let q = argparser::ArgParser::new(Vec::new(), None, Vec::new());
    assert_eq!(q.desc, "No description set");
}

#[test]
fn parsed_pairs_read_back() {
    let p = argparser::ArgParser::new(
        vec![("--checkout".to_string(), Some("thunar".to_string()))],
        None,
        Vec::new(),
    );
    let parsed = p.get_parsed();
    assert_eq!(parsed.len(), 1);
    assert_eq!(parsed[0].0, "--checkout");
    assert_eq!(parsed[0].1, Some("thunar".to_string()));
}

#[test]
fn the_fixed_table_validates_argument_syntax() {
    let p = args::ArgParser::new();
    assert_eq!(p.is_valid("--help"), Ok(true));
    assert_eq!(p.is_valid("-h"), Ok(true));
    assert_eq!(p.is_valid("--checkout=thunar"), Ok(true));
    assert_eq!(p.is_valid("--checkout"), Ok(false));
    assert_eq!(p.is_valid("--checkout="), Err("Invalid value".to_string()));
    assert_eq!(p.is_valid("--bogus"), Err("Invalid argument".to_string()));
    assert_eq!(p.has_value("--checkout"), Ok(true));
    assert_eq!(p.has_value("--help"), Ok(false));
    assert_eq!(p.get_arg_long("-c"), Ok("--checkout".to_string()));
    assert_eq!(p.get_arg_long("--checkout"), Ok("--checkout".to_string()));
    assert!(p.get_arg_long("checkout").is_err());
    assert!(p.funcs().is_empty());
}

#[test]
fn help_lines_are_laid_out_in_columns() {
    let a = args::Arg::new("h", "help", "Prints help.", None);
    assert_eq!(a.to_string(), "-h     --help                           \tPrints help.");
    let b = args::Arg::new("c", "checkout", "Checks out.", Some("name".to_string()));
    assert_eq!(b.to_string(), "-c     --checkout           = <name>    \tChecks out.");
}

#[test]
fn configuration_getters_fall_back_to_defaults() {
    let empty = Config { master: None, client: None };
    let m = empty.get_master();
    assert_eq!(m.get_addr(), "localhost");
    assert_eq!(m.get_port(), 27015);
    assert_eq!(m.get_authkey(), "");
    assert_eq!(m.get_fetch_url(), "https://localhost");
    let c = empty.get_client();
    assert_eq!(c.get_name(), "a-rranch-client");
    assert_eq!(c.get_type(), "CONTROLLER");
    assert_eq!(c.get_loglevel(), "INFO");
    assert_eq!(c.get_editor(), "vim");
    assert_eq!(c.get_protver(), 0);
}

#[test]
fn configured_values_win_over_defaults() {
    let cfg = Config {
        master: Some(Master::new(
            Some("master.lan".to_string()),
            Some(4040),
            Some("k".to_string()),
            Some("https://pkgs.lan".to_string()),
        )),
        client: Some(Client {
            name: Some("box".to_string()),
            client_type: Some("BUILD".to_string()),
            loglevel: None,
            editor: Some("nano".to_string()),
            protver: Some(2),
        }),
    };
    let m = cfg.get_master();
    assert_eq!(m.get_addr(), "master.lan");
    assert_eq!(m.get_port(), 4040);
    assert_eq!(m.get_authkey(), "k");
    assert_eq!(m.get_fetch_url(), "https://pkgs.lan");
    let c = cfg.get_client();
    assert_eq!(c.get_name(), "box");
    assert_eq!(c.get_type(), "BUILD");
    assert_eq!(c.get_loglevel(), "INFO");
    assert_eq!(c.get_editor(), "nano");
    assert_eq!(c.get_protver(), 2);
}

#[test]
fn absent_templates_read_as_an_empty_table() {
    let t = Templates { templates: None };
    assert!(t.get_templates().is_empty());
}
