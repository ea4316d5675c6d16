use daynotes::hierarchy::{
    dated_notes, hidden_name, join_date, list_days, list_numeric, month_dir_name, note_date,
    numeric_name, year_dir_name, MonthDir, NoteFile, YearDir,
};

fn names(list: &[&str]) -> Vec<String> {
    list.iter().map(|n| n.to_string()).collect()
}

#[test]
fn years_and_months_are_listed_in_order() {
    let entries = names(&["2024", ".git", "README.md", "2023", "99", "1", "20245", ".desktop_data", "2023"]);
    assert_eq!(list_numeric(&entries), vec!["2023", "2023", "2024", "99"]);
    assert_eq!(list_numeric(&names(&["12", "01", "assets", "02"])), vec!["01", "02", "12"]);
    assert_eq!(list_numeric(&Vec::new()), Vec::<String>::new());
}

#[test]
fn days_are_listed_in_order() {
    let entries = names(&["01-31.md", "assets", "01-02.md", "notes.md", "01-10.md", ".01-03.md", "01-04.md.bak"]);
    assert_eq!(list_days(&entries), vec!["01-02.md", "01-10.md", "01-31.md"]);
}

#[test]
fn join_date_puts_a_hyphen_between() {
    assert_eq!(join_date("2024", "03-09"), "2024-03-09");
    assert_eq!(join_date("", ""), "-");
}

#[test]
fn numeric_names_have_two_to_four_digits() {
    assert!(numeric_name("2024"));
    assert!(numeric_name("01"));
    assert!(numeric_name("123"));
    assert!(!numeric_name("1"));
    assert!(!numeric_name("20245"));
    assert!(!numeric_name(""));
    assert!(!numeric_name("20a4"));
    assert!(!numeric_name("+024"));
    assert!(!numeric_name("assets"));
    assert!(!numeric_name("\u{661}\u{662}"));
}

#[test]
fn hidden_names_begin_with_a_dot() {
    assert!(hidden_name(".git"));
    assert!(hidden_name("."));
    assert!(!hidden_name("2024"));
    assert!(!hidden_name(""));
    assert!(!hidden_name("a.b"));
}

#[test]
fn year_and_month_directories() {
    assert!(year_dir_name("2024", true));
    assert!(!year_dir_name("2024", false));
    assert!(!year_dir_name(".24", true));
    assert!(month_dir_name("03", true));
    assert!(!month_dir_name("03", false));
    assert!(!month_dir_name("assets", true));
}

#[test]
fn note_date_joins_year_and_file_name() {
    assert_eq!(note_date("2024", "03-09.md"), Some("2024-03-09".to_string()));
    assert_eq!(note_date("2024", "99-99.md"), Some("2024-99-99".to_string()));
    assert_eq!(note_date("2024", "3-9.md"), None);
    assert_eq!(note_date("2024", "03-09.txt"), None);
    assert_eq!(note_date("2024", "03-09.md.bak"), None);
    assert_eq!(note_date("2024", "x03-09.md"), None);
    assert_eq!(note_date("2024", "03-09xmd"), None);
    assert_eq!(note_date("2024", "03-09.md\n"), None);
}

#[test]
fn dated_notes_follow_the_tree() {
    let file = |name: &str, content: Option<&str>| NoteFile {
        name: name.to_string(),
        content: content.map(|c| c.to_string()),
    };
    let tree = vec![
        YearDir {
            name: "2024".to_string(),
            is_dir: true,
            months: vec![
                MonthDir {
                    name: "02".to_string(),
                    is_dir: true,
                    files: vec![file("02-01.md", Some("b")), file("readme.md", Some("x")), file("02-02.md", None)],
                },
                MonthDir { name: "01".to_string(), is_dir: true, files: vec![file("01-31.md", Some("a"))] },
                MonthDir { name: "assets".to_string(), is_dir: true, files: vec![file("01-01.md", Some("x"))] },
                MonthDir { name: "03".to_string(), is_dir: false, files: vec![file("03-01.md", Some("x"))] },
            ],
        },
        YearDir { name: ".desktop_data".to_string(), is_dir: true, months: Vec::new() },
        YearDir {
            name: "23".to_string(),
            is_dir: true,
            months: vec![MonthDir { name: "12".to_string(), is_dir: true, files: vec![file("12-31.md", Some("c"))] }],
        },
    ];
    let notes: Vec<(String, String)> = dated_notes(&tree).into_iter().map(|n| (n.date, n.content)).collect();
    assert_eq!(
        notes,
        vec![
            ("2024-02-01".to_string(), "b".to_string()),
            ("2024-01-31".to_string(), "a".to_string()),
            ("23-12-31".to_string(), "c".to_string()),
        ]
    );
}
