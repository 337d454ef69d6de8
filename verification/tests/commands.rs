use msqueue::cmd::{parse, Cmd};
use msqueue::db::{AddEmplResult, Db};

#[test]
fn parse_reads_every_command() {
    match parse("Add Sally to Engineering") {
        Cmd::Add { dpt, empl } => {
            assert_eq!(empl, "Sally");
            assert_eq!(dpt, "Engineering");
        }
        _ => panic!("expected Add"),
    }
    assert!(matches!(parse("List All"), Cmd::ListAll));
    match parse("List Sales") {
        Cmd::ListDepartment(dpt) => assert_eq!(dpt, "Sales"),
        _ => panic!("expected ListDepartment"),
    }
    assert!(matches!(parse("Close"), Cmd::Close));
}

#[test]
fn parse_names_each_shortfall() {
    let cases = [
        ("", "not enough parts"),
        ("   ", "not enough parts"),
        ("Add", "`Add` command needs employee name"),
        (
            "Add Bob from Sales",
            "employee name should be followed by `to` preposition",
        ),
        (
            "Add Bob",
            "employee name should be followed by `to` preposition",
        ),
        ("Add Bob to", "`Add` command needs department"),
        ("List", "`List` command requires department as argument"),
        ("Quit now", "unknown command"),
    ];
    for (line, expected) in cases {
        match parse(line) {
            Cmd::Unknown(msg) => assert_eq!(msg, expected),
            _ => panic!("expected Unknown for {:?}", line),
        }
    }
}

#[test]
fn unicode_whitespace_separates_words() {
    // no-break space has the White_Space property, so it splits words
    // just as an ASCII space does
    assert!(matches!(parse("\u{a0}Close"), Cmd::Close));
    match parse("Add\u{a0}Bo to Ops") {
        Cmd::Add { dpt, empl } => {
            assert_eq!(empl, "Bo");
            assert_eq!(dpt, "Ops");
        }
        _ => panic!("expected Add"),
    }
}

#[test]
fn db_keeps_departments_and_members() {
    let mut db = Db::new();
    assert!(matches!(
        db.add_empl("Sales".to_string(), "Amir".to_string()),
        AddEmplResult::Added
    ));
    assert!(matches!(
        db.add_empl("Engineering".to_string(), "Sally".to_string()),
        AddEmplResult::Added
    ));
    assert!(matches!(
        db.add_empl("Sales".to_string(), "Bea".to_string()),
        AddEmplResult::Added
    ));
    assert!(matches!(
        db.add_empl("Sales".to_string(), "Amir".to_string()),
        AddEmplResult::AlreadyExists
    ));

    assert_eq!(db.get_empls("Sales"), vec!["Amir", "Bea"]);
    assert_eq!(db.get_empls("Engineering"), vec!["Sally"]);
    assert_eq!(db.get_empls("Nowhere"), Vec::<String>::new());

    assert_eq!(db.get_all_empls(), vec!["Amir", "Bea", "Sally"]);

    let pairs = db.get_all_dpt_empls();
    assert_eq!(
        pairs,
        vec![
            ("Sales".to_string(), "Amir".to_string()),
            ("Sales".to_string(), "Bea".to_string()),
            ("Engineering".to_string(), "Sally".to_string()),
        ]
    );
}
