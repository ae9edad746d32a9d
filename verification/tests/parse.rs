use netrc::Error;
use netrc::Netrc;
use netrc::Tokens;

#[test]
fn test_token() {
    let input = r#"
machine host1.com login login1
macdef test
cd /pub/tests
bin
put filename.tar.gz
quit
machine host2.com login login2"#
        .to_string();
    let mut tokens = Tokens::new(input.as_str());
    let strs: Vec<&str> = input.split_whitespace().collect();
    let mut count = 0;
    loop {
        match tokens.next_token() {
            Some(tok) => {
                assert_eq!(tok.to_text().as_str(), strs[count]);
                count += 1;
            }
            None => break,
        }
    }
}

#[test]
fn parse_simple() {
    let input = "machine 中文.com login test password p@ssw0rd".to_string();
    let netrc = Netrc::parse(input.as_str(), false).unwrap();
    assert_eq!(netrc.machines.len(), 1);
    assert!(netrc.macdefs.is_empty());
    let machine = netrc.machines[0].clone();
    assert_eq!(machine.name, Some("中文.com".into()));
    assert_eq!(machine.login, Some("test".into()));
    assert_eq!(machine.password.as_ref().unwrap(), "p@ssw0rd");
    assert_eq!(machine.account, None);
}

#[test]
fn parse_unknown() {
    let input = "machine example.com login test my_entry1 password foo my_entry2".to_string();
    let netrc = Netrc::parse(input.as_str(), true).unwrap();
    assert_eq!(netrc.machines.len(), 1);
    assert!(netrc.macdefs.is_empty());
    assert_eq!(
        netrc.unknown_entries,
        vec!["my_entry1".to_string(), "my_entry2".to_string()]
    );

    let machine = netrc.machines[0].clone();
    assert_eq!(machine.name, Some("example.com".into()));
    assert_eq!(machine.login, Some("test".into()));
    assert_eq!(machine.password.as_ref().unwrap(), "foo");
}

#[test]
fn parse_macdef() {
    let input = r#"machine host0.com login login0
                     macdef uploadtest
                            cd /pub/tests
                            bin
                            put filename.tar.gz
                            echo 中文测试
                            quit

                     machine host1.com login login1"#;
    let netrc = Netrc::parse(input, false).unwrap();
    assert_eq!(netrc.machines.len(), 2);
    for (i, machine) in netrc.machines.iter().enumerate() {
        assert_eq!(machine.name, Some(format!("host{}.com", i)));
        assert_eq!(machine.login, Some(format!("login{}", i)));
    }
    assert_eq!(netrc.macdefs.len(), 1);
    let (ref name, ref cmds) = netrc.macdefs[0];
    assert_eq!(name, "uploadtest");
    assert_eq!(
        *cmds,
        vec![
            "cd /pub/tests",
            "bin",
            "put filename.tar.gz",
            "echo 中文测试",
            "quit"
        ]
        .iter()
        .map(|s| s.to_string())
        .collect::<Vec<String>>()
    )
}

#[test]
fn parse_default() {
    let input = r#"machine example.com login test
            default login def"#;
    let netrc = Netrc::parse(input, false).unwrap();
    assert_eq!(netrc.machines.len(), 2);

    let machine = netrc.machines[0].clone();
    assert_eq!(machine.name, Some("example.com".into()));
    assert_eq!(machine.login, Some("test".into()));

    let machine = netrc.machines[1].clone();
    assert_eq!(machine.name, None);
    assert_eq!(machine.login, Some("def".into()));
}

#[test]
fn parse_error_unknown_entry() {
    let input = "machine foobar.com foo";
    match Netrc::parse(input, false).unwrap_err() {
        Error::IllegalFormat(_pos, _s) => {}
        e => panic!("Error type: {:?}", e),
    }
}

#[test]
fn parse_error_eof() {
    let input = "machine foobar.com password melody login";
    match Netrc::parse(input, false).unwrap_err() {
        Error::EOF => {}
        e => panic!("Error type: {:?}", e),
    }
}

#[test]
fn parse_error_illegal_format() {
    let input = "password bar login foo";
    match Netrc::parse(input, false).unwrap_err() {
        Error::IllegalFormat(_pos, _s) => {}
        e => panic!("Error type: {:?}", e),
    }
}
