use netrc::Error;
use netrc::Machine;
use netrc::Netrc;

#[test]
fn simple_tuple_round_trip() {
    let input = "machine example.com login foo password bar";
    let netrc = Netrc::parse(input, false).unwrap();
    assert_eq!(netrc.machines.len(), 1);
    assert!(netrc.macdefs.is_empty());
    assert!(netrc.unknown_entries.is_empty());
    let machine = &netrc.machines[0];
    assert_eq!(machine.name, Some("example.com".to_string()));
    assert_eq!(machine.login, Some("foo".to_string()));
    assert_eq!(machine.password, Some("bar".to_string()));
    assert_eq!(machine.account, None);
    assert_eq!(machine.render(), input.to_string());
}

#[test]
fn full_tuples_in_order() {
    let input = "machine a login la password pa account xa machine b login lb password pb account xb";
    let netrc = Netrc::parse(input, false).unwrap();
    assert_eq!(netrc.machines.len(), 2);
    let m0 = &netrc.machines[0];
    assert_eq!(m0.name, Some("a".to_string()));
    assert_eq!(m0.login, Some("la".to_string()));
    assert_eq!(m0.password, Some("pa".to_string()));
    assert_eq!(m0.account, Some("xa".to_string()));
    let m1 = &netrc.machines[1];
    assert_eq!(m1.name, Some("b".to_string()));
    assert_eq!(m1.login, Some("lb".to_string()));
    assert_eq!(m1.password, Some("pb".to_string()));
    assert_eq!(m1.account, Some("xb".to_string()));
    assert!(netrc.macdefs.is_empty());
    assert!(netrc.unknown_entries.is_empty());
}

#[test]
fn multiple_defaults_kept() {
    let input = "default login a default login b";
    let netrc = Netrc::parse(input, false).unwrap();
    assert_eq!(netrc.machines.len(), 2);
    assert_eq!(netrc.machines[0].name, None);
    assert_eq!(netrc.machines[0].login, Some("a".to_string()));
    assert_eq!(netrc.machines[1].name, None);
    assert_eq!(netrc.machines[1].login, Some("b".to_string()));
}

#[test]
fn render_reparse_equal_machine() {
    let machine = Machine {
        name: None,
        login: Some("user".to_string()),
        password: None,
        account: Some("acct".to_string()),
    };
    let text = machine.render();
    assert_eq!(text, "default login user account acct");
    let netrc = Netrc::parse(text.as_str(), false).unwrap();
    assert_eq!(netrc.machines.len(), 1);
    assert_eq!(netrc.machines[0], machine);
}

#[test]
fn clean_end_between_entries() {
    let netrc = Netrc::parse("machine a.com login l", false).unwrap();
    assert_eq!(netrc.machines.len(), 1);
    assert_eq!(netrc.machines[0].login, Some("l".to_string()));
}

#[test]
fn empty_input_is_ok() {
    let netrc = Netrc::parse("", false).unwrap();
    assert!(netrc.machines.is_empty());
    assert!(netrc.macdefs.is_empty());
    assert!(netrc.unknown_entries.is_empty());
    let netrc = Netrc::parse(" \t\n ", false).unwrap();
    assert!(netrc.machines.is_empty());
}

#[test]
fn eof_after_each_value_keyword() {
    for input in [
        "machine",
        "machine a.com login",
        "machine a.com password",
        "machine a.com account",
        "macdef",
        "machine foobar.com password melody login",
    ] {
        match Netrc::parse(input, false).unwrap_err() {
            Error::EOF => {}
            e => panic!("Error type: {:?}", e),
        }
    }
}

#[test]
fn credential_before_machine_fails() {
    for input in ["login x", "password bar login foo", "account a b"] {
        match Netrc::parse(input, false).unwrap_err() {
            Error::IllegalFormat(_, _) => {}
            e => panic!("Error type: {:?}", e),
        }
    }
}

#[test]
fn illegal_format_position_and_message() {
    match Netrc::parse("password bar login foo", false).unwrap_err() {
        Error::IllegalFormat(pos, msg) => {
            assert_eq!(pos.0, 1);
            assert_eq!(pos.1, 13);
            assert_eq!(msg, "password must follow machine".to_string());
        }
        e => panic!("Error type: {:?}", e),
    }
}

#[test]
fn illegal_format_row_counts_newlines() {
    match Netrc::parse("machine m\nlogin a login b", false).unwrap_err() {
        Error::IllegalFormat(pos, msg) => {
            assert_eq!(pos.0, 2);
            assert_eq!(pos.1, 16);
            assert_eq!(msg, "login must follow machine".to_string());
        }
        e => panic!("Error type: {:?}", e),
    }
}

#[test]
fn unknown_word_tolerance() {
    let input = "machine foobar.com foo";
    match Netrc::parse(input, false).unwrap_err() {
        Error::IllegalFormat(pos, msg) => {
            assert_eq!(pos.0, 1);
            assert_eq!(pos.1, 23);
            assert_eq!(msg, "token: foo".to_string());
        }
        e => panic!("Error type: {:?}", e),
    }
    let netrc = Netrc::parse(input, true).unwrap();
    assert_eq!(netrc.unknown_entries, vec!["foo".to_string()]);
    assert_eq!(netrc.machines.len(), 1);
    assert_eq!(netrc.machines[0].name, Some("foobar.com".to_string()));
}

#[test]
fn macdef_capture_and_resume() {
    let input = "macdef init\nget file\n  put other  \n\ndefault login d";
    let netrc = Netrc::parse(input, false).unwrap();
    assert_eq!(netrc.macdefs.len(), 1);
    let (ref name, ref cmds) = netrc.macdefs[0];
    assert_eq!(name, "init");
    assert_eq!(*cmds, vec!["get file".to_string(), "put other".to_string()]);
    assert_eq!(netrc.machines.len(), 1);
    assert_eq!(netrc.machines[0].name, None);
    assert_eq!(netrc.machines[0].login, Some("d".to_string()));
}

#[test]
fn macdef_at_end_of_input() {
    let netrc = Netrc::parse("macdef empty", false).unwrap();
    assert_eq!(netrc.macdefs.len(), 1);
    let (ref name, ref cmds) = netrc.macdefs[0];
    assert_eq!(name, "empty");
    assert!(cmds.is_empty());
}

#[test]
fn render_name_only() {
    let machine = Machine {
        name: Some("h.example".to_string()),
        login: None,
        password: None,
        account: None,
    };
    assert_eq!(machine.render(), "machine h.example");
    let netrc = Netrc::parse("machine h.example", false).unwrap();
    assert_eq!(netrc.machines[0], machine);
}

#[test]
fn later_values_overwrite_last_machine() {
    let input = "machine a machine b login x login y";
    let netrc = Netrc::parse(input, false).unwrap();
    assert_eq!(netrc.machines.len(), 2);
    assert_eq!(netrc.machines[0].login, None);
    assert_eq!(netrc.machines[1].login, Some("y".to_string()));
}
