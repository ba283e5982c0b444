use netdb::nsswitch::{Action, Conf, Database, Error, Rule, Service, Status};

#[test]
fn parse() {
    let text = "# /etc/nsswitch.conf\n\
                #\n\
                \n\
                passwd:         compat\n\
                gshadow:        files\n\
                \n\
                hosts:          files mdns4_minimal [NOTFOUND=return] dns myho\n\
                networks:       files\n\
                \n\
                protocols:      db files\n\
                services:       db files\n\
                rpc:            db files\n\
                \n\
                netgroup:       nis\n\
                ";
    let conf = Conf::parse(text).unwrap();
    assert_eq!(
        conf.database(&Database::Other("passwd".into())),
        Some(&[Rule::Service(Service::Compat)][..])
    );
    assert_eq!(
        conf.database(&Database::Other("gshadow".into())),
        Some(&[Rule::Service(Service::Files)][..])
    );
    assert_eq!(
        conf.database(&Database::Hosts),
        Some(
            &[
                Rule::Service(Service::Files),
                Rule::Service(Service::Other("mdns4_minimal".into())),
                Rule::Action(Status::NotFound, Action::Return),
                Rule::Service(Service::Dns),
                Rule::Service(Service::Other("myho".into()))
            ][..]
        )
    );
}

#[test]
fn parse_hosts_files_dns() {
    let conf = Conf::parse("hosts: files dns").unwrap();
    assert_eq!(
        conf.database(&Database::Hosts),
        Some(&[Rule::Service(Service::Files), Rule::Service(Service::Dns)][..])
    );
    assert_eq!(conf.database(&Database::Networks), None);
}

#[test]
fn parse_action_rule() {
    let conf = Conf::parse("hosts: files [NOTFOUND=return] dns").unwrap();
    assert_eq!(
        conf.database(&Database::Hosts),
        Some(
            &[
                Rule::Service(Service::Files),
                Rule::Action(Status::NotFound, Action::Return),
                Rule::Service(Service::Dns)
            ][..]
        )
    );
}

#[test]
fn parse_all_keywords() {
    let conf = Conf::parse(
        "services: compat [success=merge] [unavail=continue] [tryagain=return]\n\
         protocols: files\n\
         networks: dns\n",
    )
    .unwrap();
    assert_eq!(
        conf.database(&Database::Services),
        Some(
            &[
                Rule::Service(Service::Compat),
                Rule::Action(Status::Success, Action::Merge),
                Rule::Action(Status::Unavail, Action::Continue),
                Rule::Action(Status::TryAgain, Action::Return)
            ][..]
        )
    );
    assert_eq!(conf.database(&Database::Protocols), Some(&[Rule::Service(Service::Files)][..]));
    assert_eq!(conf.database(&Database::Networks), Some(&[Rule::Service(Service::Dns)][..]));
}

#[test]
fn parse_ignores_case_and_comments() {
    let upper = Conf::parse("# a comment\n\n   \nHOSTS: Files [NotFound=Return] DNS # trailing\n   # indented comment\n").unwrap();
    let lower = Conf::parse("hosts: files [notfound=return] dns").unwrap();
    assert_eq!(upper.database(&Database::Hosts), lower.database(&Database::Hosts));
    assert_eq!(
        upper.database(&Database::Hosts),
        Some(
            &[
                Rule::Service(Service::Files),
                Rule::Action(Status::NotFound, Action::Return),
                Rule::Service(Service::Dns)
            ][..]
        )
    );
}

#[test]
fn parse_lowercased_text_again() {
    let text = "Hosts: Files MDNS [TryAgain=Continue] Dns\nPasswd: Compat\n";
    let once = Conf::parse(text).unwrap();
    let again = Conf::parse(&text.to_lowercase()).unwrap();
    assert_eq!(once.database(&Database::Hosts), again.database(&Database::Hosts));
    assert_eq!(
        once.database(&Database::Other("passwd".into())),
        again.database(&Database::Other("passwd".into()))
    );
    assert_eq!(
        again.database(&Database::Hosts),
        Some(
            &[
                Rule::Service(Service::Files),
                Rule::Service(Service::Other("mdns".into())),
                Rule::Action(Status::TryAgain, Action::Continue),
                Rule::Service(Service::Dns)
            ][..]
        )
    );
}

#[test]
fn later_line_replaces_earlier() {
    let conf = Conf::parse("hosts: files dns\nhosts: dns\n").unwrap();
    assert_eq!(conf.database(&Database::Hosts), Some(&[Rule::Service(Service::Dns)][..]));
}

#[test]
fn database_name_without_rules() {
    let conf = Conf::parse("hosts:").unwrap();
    assert_eq!(conf.database(&Database::Hosts), Some(&[][..]));
}

#[test]
fn empty_text_gives_empty_conf() {
    let conf = Conf::parse("").unwrap();
    assert_eq!(conf.database(&Database::Hosts), None);
    let fresh = Conf::new();
    assert_eq!(fresh.database(&Database::Hosts), None);
}

#[test]
fn missing_colon_is_error() {
    assert_eq!(
        Conf::parse("hosts files dns").unwrap_err(),
        Error::ParseError("hosts files dns".into())
    );
}

#[test]
fn unterminated_bracket_is_error() {
    assert_eq!(
        Conf::parse("passwd: files\nHosts: files [NOTFOUND=return dns").unwrap_err(),
        Error::ParseError("hosts: files [notfound=return dns".into())
    );
}

#[test]
fn unknown_status_is_error() {
    assert!(matches!(Conf::parse("hosts: files [FOUND=return]"), Err(Error::ParseError(_))));
}

#[test]
fn unknown_action_is_error() {
    assert!(matches!(Conf::parse("hosts: files [notfound=stop]"), Err(Error::ParseError(_))));
}

#[test]
fn missing_equals_is_error() {
    assert!(matches!(Conf::parse("hosts: files [notfound]"), Err(Error::ParseError(_))));
    assert!(matches!(Conf::parse("hosts: files []"), Err(Error::ParseError(_))));
}

#[test]
fn parse_line_steps() {
    let mut conf = Conf::new();
    assert_eq!(conf.parse_line("  # nothing here"), Ok(()));
    assert_eq!(conf.database(&Database::Hosts), None);
    assert_eq!(conf.parse_line("HOSTS: DNS"), Ok(()));
    assert_eq!(conf.database(&Database::Hosts), Some(&[Rule::Service(Service::Dns)][..]));
    assert_eq!(conf.parse_line("hosts"), Err(Error::ParseError("hosts".into())));
    assert_eq!(conf.database(&Database::Hosts), Some(&[Rule::Service(Service::Dns)][..]));
}

#[test]
fn keyword_lookup() {
    let w: Vec<char> = "networks".chars().collect();
    assert_eq!(Database::from_chars(&w), Database::Networks);
    let w: Vec<char> = "rpc".chars().collect();
    assert_eq!(Database::from_chars(&w), Database::Other("rpc".into()));
    assert!(Database::Hosts.same(&Database::Hosts));
    assert!(!Database::Hosts.same(&Database::Other("hosts".into())));
    let w: Vec<char> = "unavail".chars().collect();
    assert_eq!(Status::from_chars(&w), Some(Status::Unavail));
    let w: Vec<char> = "merge".chars().collect();
    assert_eq!(Action::from_chars(&w), Some(Action::Merge));
    let w: Vec<char> = "[success=continue]".chars().collect();
    assert_eq!(Rule::from_chars(&w), Some(Rule::Action(Status::Success, Action::Continue)));
    let w: Vec<char> = "nis".chars().collect();
    assert_eq!(Rule::from_chars(&w), Some(Rule::Service(Service::Other("nis".into()))));
}

#[test]
fn names_of_values() {
    assert_eq!(Database::Hosts.name(), "hosts");
    assert_eq!(Database::Services.name(), "services");
    assert_eq!(Database::Other("rpc".into()).name(), "rpc");
    assert_eq!(Status::TryAgain.name(), "tryagain");
    assert_eq!(Status::NotFound.name(), "notfound");
    assert_eq!(Action::Merge.name(), "merge");
    assert_eq!(Action::Continue.name(), "continue");
    assert_eq!(Service::Dns.name(), "dns");
    assert_eq!(Service::Other("nis".into()).name(), "nis");
    assert_eq!(Error::ParseError("x".into()).description(), "error parsing configuration");
}

#[test]
fn names_read_back() {
    for db in [Database::Hosts, Database::Networks, Database::Protocols, Database::Services] {
        let w: Vec<char> = db.name().chars().collect();
        assert_eq!(Database::from_chars(&w), db);
    }
    for st in [Status::Success, Status::NotFound, Status::Unavail, Status::TryAgain] {
        let w: Vec<char> = st.name().chars().collect();
        assert_eq!(Status::from_chars(&w), Some(st));
    }
    for a in [Action::Return, Action::Continue, Action::Merge] {
        let w: Vec<char> = a.name().chars().collect();
        assert_eq!(Action::from_chars(&w), Some(a));
    }
    for sv in [Service::Compat, Service::Dns, Service::Files] {
        let w: Vec<char> = sv.name().chars().collect();
        assert_eq!(Service::from_chars(&w), sv);
    }
}

#[test]
fn configurations_compare_by_content() {
    let a = Conf::parse("hosts: files dns\npasswd: compat").unwrap();
    let b = Conf::parse("PASSWD: compat\nhosts: dns\nhosts: files dns").unwrap();
    assert!(a == b);
    let c = Conf::parse("hosts: dns files\npasswd: compat").unwrap();
    assert!(a != c);
    let d = Conf::parse("hosts: files dns").unwrap();
    assert!(a != d);
    assert!(Conf::new() == Conf::parse("# nothing\n").unwrap());
}

#[test]
fn blank_and_comment_lines_inserted() {
    let plain = Conf::parse("passwd: compat\nhosts: files [notfound=return] dns").unwrap();
    let padded = Conf::parse(
        "passwd: compat # users\n   \n\t# about hosts\n\nhosts: files [notfound=return] dns #tail\n",
    )
    .unwrap();
    assert!(plain == padded);
}
