use cargo_crev::error::Error;
use cargo_crev::platform::Cfg;
use cargo_crev::target::{cfg_of_line, cfgs_of_lines, effective_target};

fn name(n: &str) -> Cfg {
    Cfg::Name(n.to_string())
}

fn pair(k: &str, v: &str) -> Cfg {
    Cfg::KeyPair(k.to_string(), v.to_string())
}

fn parse_cfgs(report: &str) -> Result<Vec<Cfg>, Error> {
    let lines: Vec<String> = report.lines().map(|line| line.to_string()).collect();
    cfgs_of_lines(&lines)
}

#[test]
fn a_report_is_read_line_by_line() {
    let report = "debug_assertions\ntarget_arch=\"x86_64\"\ntarget_os=\"linux\"\nunix\n";
    assert_eq!(
        parse_cfgs(report),
        Ok(vec![
            name("debug_assertions"),
            pair("target_arch", "x86_64"),
            pair("target_os", "linux"),
            name("unix"),
        ])
    );
}

#[test]
fn an_empty_report_has_no_values() {
    assert_eq!(parse_cfgs(""), Ok(vec![]));
}

#[test]
fn the_first_bad_line_ends_the_reading() {
    assert_eq!(
        parse_cfgs("unix\ntarget_os=linux\n)\n"),
        Err(Error::InvalidCfg("target_os=linux".to_string()))
    );
    assert_eq!(parse_cfgs("unix\n\nwindows"), Err(Error::InvalidCfg(String::new())));
    assert_eq!(parse_cfgs("a b"), Err(Error::InvalidCfg("a b".to_string())));
}

#[test]
fn lines_are_read_as_given() {
    let lines = vec!["feature=\"std\"".to_string(), "unix".to_string()];
    assert_eq!(cfgs_of_lines(&lines), Ok(vec![pair("feature", "std"), name("unix")]));
    assert_eq!(cfgs_of_lines(&[]), Ok(vec![]));
    let lines = vec!["unix".to_string(), "=".to_string(), "(".to_string()];
    assert_eq!(cfgs_of_lines(&lines), Err(Error::InvalidCfg("=".to_string())));
}

#[test]
fn a_line_that_did_not_parse_is_kept_as_the_failure() {
    let line = "not(a value)".to_string();
    let parsed = line.parse::<cargo_platform::Cfg>().map(|_| name("never"));
    assert!(parsed.is_err());
    assert_eq!(cfg_of_line(&line, parsed), Err(Error::InvalidCfg(line.clone())));
    assert_eq!(cfg_of_line(&line, Ok(name("unix"))), Ok(name("unix")));
}

#[test]
fn the_target_is_the_one_asked_for() {
    let host = "x86_64-unknown-linux-gnu";
    assert_eq!(effective_target(&None, host), None);
    assert_eq!(effective_target(&Some(None), host), Some(host.to_string()));
    assert_eq!(
        effective_target(&Some(Some("wasm32-unknown-unknown".to_string())), host),
        Some("wasm32-unknown-unknown".to_string())
    );
}
