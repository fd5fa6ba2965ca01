use mbpoll::addr::AddrError;
use mbpoll::cli::{build_reqs, Cli, CliError};
use mbpoll::modbus::RegType;

fn base() -> Cli {
    Cli {
        host: "127.0.0.1".to_string(),
        port: 502,
        unit: 1,
        timeout_ms: 1000,
        holding: None,
        input: None,
        coils: None,
        discrete: None,
        watch: false,
        interval_ms: 1000,
        addrs: None,
    }
}

#[test]
fn positional_becomes_holding() {
    let mut c = base();
    c.addrs = Some("1-3".to_string());
    let n = c.normalize().unwrap();
    assert_eq!(n.holding.as_deref(), Some("1-3"));
    assert!(n.addrs.is_none());
}

#[test]
fn normalize_errors() {
    let mut c = base();
    c.coils = Some("1".to_string());
    c.addrs = Some("2".to_string());
    assert_eq!(c.normalize().unwrap_err(), CliError::Mixed);

    let mut c = base();
    c.input = Some("  ".to_string());
    assert_eq!(c.normalize().unwrap_err(), CliError::BlankList(RegType::Input));

    assert_eq!(base().normalize().unwrap_err(), CliError::NoAddrs);

    let mut c = base();
    c.holding = Some("1".to_string());
    c.timeout_ms = 0;
    assert_eq!(c.normalize().unwrap_err(), CliError::ZeroTimeout);

    let mut c = base();
    c.holding = Some("1".to_string());
    c.watch = true;
    c.interval_ms = 0;
    assert_eq!(c.normalize().unwrap_err(), CliError::ZeroInterval);

    let mut c = base();
    c.holding = Some("1".to_string());
    c.interval_ms = 0;
    assert!(c.normalize().is_ok());
}

#[test]
fn requests_in_kind_order() {
    let mut c = base();
    c.discrete = Some("4".to_string());
    c.holding = Some("2,1".to_string());
    let r = build_reqs(&c).unwrap();
    assert_eq!(r, vec![(RegType::Holding, vec![1, 2]), (RegType::Discrete, vec![4])]);

    c.input = Some("x".to_string());
    assert_eq!(build_reqs(&c).unwrap_err(), AddrError::BadNumber);
}
