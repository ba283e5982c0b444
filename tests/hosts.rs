use netdb::hosts::{merge, HostEnt, IpAddr, Orchestrator, Progress, Request};
use netdb::nsswitch::{Conf, Service, Status};

fn v4(a: u8, b: u8, c: u8, d: u8) -> IpAddr {
    IpAddr::V4(u32::from_be_bytes([a, b, c, d]))
}

fn entry(name: &str, aliases: &[&str], addrs: &[IpAddr]) -> HostEnt {
    HostEnt::new(
        name.to_string(),
        aliases.iter().map(|s| s.to_string()).collect(),
        addrs.to_vec(),
    )
}

/// Drives a lookup, answering each consulted service from `answers` in
/// order, and records which services were consulted.
fn drive(
    conf: &Conf,
    request: Request,
    answers: Vec<(Status, Option<HostEnt>)>,
) -> (Option<HostEnt>, Vec<Service>) {
    let mut consulted = Vec::new();
    let mut answers = answers.into_iter();
    let mut progress = Orchestrator::begin(conf, request, None);
    loop {
        match progress {
            Progress::Resolved(res) => return (res, consulted),
            Progress::Consult(orch) => {
                consulted.push(orch.service().clone());
                let (status, ent) = answers.next().expect("a service was consulted too often");
                progress = orch.resume(status, ent);
            }
        }
    }
}

fn by_name(name: &str) -> Request {
    Request::ByName(name.to_string())
}

#[test]
fn literal_name_resolves_without_sources() {
    let conf = Conf::parse("hosts: files dns").unwrap();
    let addr = v4(127, 0, 0, 1);
    match Orchestrator::begin(&conf, by_name("127.0.0.1"), Some(addr)) {
        Progress::Resolved(Some(ent)) => {
            assert_eq!(ent.name(), "127.0.0.1");
            assert!(ent.aliases().is_empty());
            assert_eq!(ent.addrs(), &[addr][..]);
        }
        _ => panic!("a literal must resolve at once"),
    }
    let six = IpAddr::V6(1);
    match Orchestrator::begin(&conf, by_name("::1"), Some(six)) {
        Progress::Resolved(Some(ent)) => {
            assert_eq!(ent.name(), "::1");
            assert_eq!(ent.addrs(), &[six][..]);
        }
        _ => panic!("a literal must resolve at once"),
    }
}

#[test]
fn notfound_return_stops_before_dns() {
    let conf = Conf::parse("hosts: files [NOTFOUND=return] dns").unwrap();
    let (res, consulted) = drive(&conf, by_name("example"), vec![(Status::NotFound, None)]);
    assert!(res.is_none());
    assert_eq!(consulted, vec![Service::Files]);
}

#[test]
fn notfound_continues_to_dns() {
    let conf = Conf::parse("hosts: files dns").unwrap();
    let e = entry("example.com", &[], &[v4(192, 0, 2, 1)]);
    let (res, consulted) = drive(
        &conf,
        by_name("example.com"),
        vec![(Status::NotFound, None), (Status::Success, Some(e))],
    );
    let res = res.unwrap();
    assert_eq!(res.name(), "example.com");
    assert_eq!(res.addrs(), &[v4(192, 0, 2, 1)][..]);
    assert_eq!(consulted, vec![Service::Files, Service::Dns]);
}

#[test]
fn success_merge_joins_addresses() {
    let conf = Conf::parse("hosts: files [SUCCESS=merge] dns [SUCCESS=merge]").unwrap();
    let e1 = entry("one", &["a"], &[v4(10, 0, 0, 1), v4(10, 0, 0, 2)]);
    let e2 = entry("two", &["a", "b"], &[v4(10, 0, 0, 2), v4(10, 0, 0, 3)]);
    let (res, consulted) = drive(
        &conf,
        by_name("one"),
        vec![(Status::Success, Some(e1)), (Status::Success, Some(e2))],
    );
    let res = res.unwrap();
    assert_eq!(res.name(), "one");
    assert_eq!(res.aliases(), &["a".to_string(), "b".to_string()][..]);
    assert_eq!(res.addrs(), &[v4(10, 0, 0, 1), v4(10, 0, 0, 2), v4(10, 0, 0, 3)][..]);
    assert_eq!(consulted, vec![Service::Files, Service::Dns]);
}

#[test]
fn return_after_merge_keeps_gathered() {
    let conf = Conf::parse("hosts: files [SUCCESS=merge] dns").unwrap();
    let e1 = entry("one", &["a"], &[v4(10, 0, 0, 1), v4(10, 0, 0, 2)]);
    let e2 = entry("two", &["a", "b"], &[v4(10, 0, 0, 2), v4(10, 0, 0, 3)]);
    let (res, consulted) = drive(
        &conf,
        by_name("one"),
        vec![(Status::Success, Some(e1)), (Status::Success, Some(e2))],
    );
    let res = res.unwrap();
    assert_eq!(res.name(), "one");
    assert_eq!(res.aliases(), &["a".to_string(), "b".to_string()][..]);
    assert_eq!(res.addrs(), &[v4(10, 0, 0, 1), v4(10, 0, 0, 2), v4(10, 0, 0, 3)][..]);
    assert_eq!(consulted, vec![Service::Files, Service::Dns]);
}

#[test]
fn return_after_merge_single_addresses() {
    let conf = Conf::parse("hosts: files [SUCCESS=merge] dns").unwrap();
    let e1 = entry("one", &[], &[v4(10, 0, 0, 1)]);
    let e2 = entry("two", &[], &[v4(10, 0, 0, 2)]);
    let (res, _) = drive(
        &conf,
        by_name("one"),
        vec![(Status::Success, Some(e1)), (Status::Success, Some(e2))],
    );
    let res = res.unwrap();
    assert_eq!(res.name(), "one");
    assert_eq!(res.addrs(), &[v4(10, 0, 0, 1), v4(10, 0, 0, 2)][..]);
}

#[test]
fn resolved_entries() {
    assert!(entry("n", &[], &[v4(1, 2, 3, 4)]).is_resolved());
    assert!(!entry("", &[], &[v4(1, 2, 3, 4)]).is_resolved());
    assert!(!entry("n", &["a"], &[]).is_resolved());
}

#[test]
fn empty_name_is_no_literal() {
    let conf = Conf::parse("passwd: files").unwrap();
    match Orchestrator::begin(&conf, by_name(""), Some(v4(1, 1, 1, 1))) {
        Progress::Resolved(None) => {}
        _ => panic!("an empty name is no address literal"),
    }
}

#[test]
fn success_returns_by_default() {
    let conf = Conf::parse("hosts: files dns").unwrap();
    let e = entry("local", &[], &[v4(127, 0, 1, 1)]);
    let (res, consulted) = drive(&conf, by_name("local"), vec![(Status::Success, Some(e))]);
    assert_eq!(res.unwrap().name(), "local");
    assert_eq!(consulted, vec![Service::Files]);
}

#[test]
fn exhausted_rules_give_none() {
    let conf = Conf::parse("hosts: files dns").unwrap();
    let (res, consulted) = drive(
        &conf,
        by_name("nowhere"),
        vec![(Status::Unavail, None), (Status::TryAgain, None)],
    );
    assert!(res.is_none());
    assert_eq!(consulted, vec![Service::Files, Service::Dns]);
}

#[test]
fn no_hosts_configuration_gives_none() {
    let conf = Conf::parse("passwd: files").unwrap();
    let (res, consulted) = drive(&conf, by_name("x"), vec![]);
    assert!(res.is_none());
    assert!(consulted.is_empty());
    let conf = Conf::parse("hosts: [notfound=return]").unwrap();
    let (res, consulted) = drive(&conf, by_name("x"), vec![]);
    assert!(res.is_none());
    assert!(consulted.is_empty());
}

#[test]
fn action_for_other_status_is_skipped() {
    let conf = Conf::parse("hosts: files [unavail=return] dns").unwrap();
    let e = entry("far", &[], &[v4(198, 51, 100, 7)]);
    let (res, consulted) = drive(
        &conf,
        by_name("far"),
        vec![(Status::NotFound, None), (Status::Success, Some(e))],
    );
    assert_eq!(res.unwrap().name(), "far");
    assert_eq!(consulted, vec![Service::Files, Service::Dns]);
}

#[test]
fn return_without_entry_keeps_merged() {
    let conf = Conf::parse("hosts: files [success=merge] dns [notfound=return] nis").unwrap();
    let e1 = entry("first", &[], &[v4(10, 1, 1, 1)]);
    let (res, consulted) = drive(
        &conf,
        by_name("first"),
        vec![(Status::Success, Some(e1)), (Status::NotFound, None)],
    );
    let res = res.unwrap();
    assert_eq!(res.name(), "first");
    assert_eq!(res.addrs(), &[v4(10, 1, 1, 1)][..]);
    assert_eq!(consulted, vec![Service::Files, Service::Dns]);
}

#[test]
fn lookup_by_address_walks_rules() {
    let conf = Conf::parse("hosts: files dns").unwrap();
    let addr = v4(192, 0, 2, 9);
    let e = entry("host.example", &["alias.example"], &[addr]);
    let mut progress = Orchestrator::begin(&conf, Request::ByAddr(addr), Some(v4(1, 2, 3, 4)));
    let orch = match progress {
        Progress::Consult(o) => o,
        _ => panic!("an address lookup consults the sources"),
    };
    assert!(matches!(orch.request(), Request::ByAddr(a) if *a == addr));
    assert_eq!(orch.service(), &Service::Files);
    progress = orch.resume(Status::NotFound, None);
    let orch = match progress {
        Progress::Consult(o) => o,
        _ => panic!("dns comes next"),
    };
    assert_eq!(orch.service(), &Service::Dns);
    match orch.resume(Status::Success, Some(e)) {
        Progress::Resolved(Some(ent)) => {
            assert_eq!(ent.name(), "host.example");
            assert_eq!(ent.aliases(), &["alias.example".to_string()][..]);
        }
        _ => panic!("dns answered"),
    }
}

#[test]
fn merge_removes_repeats() {
    let first = merge(None, entry("n", &["x", "x"], &[v4(1, 1, 1, 1), v4(1, 1, 1, 1)]));
    assert_eq!(first.name(), "n");
    assert_eq!(first.aliases(), &["x".to_string()][..]);
    assert_eq!(first.addrs(), &[v4(1, 1, 1, 1)][..]);
    let both = merge(Some(first), entry("m", &["y", "x"], &[v4(2, 2, 2, 2), v4(1, 1, 1, 1)]));
    assert_eq!(both.name(), "n");
    assert_eq!(both.aliases(), &["x".to_string(), "y".to_string()][..]);
    assert_eq!(both.addrs(), &[v4(1, 1, 1, 1), v4(2, 2, 2, 2)][..]);
}
