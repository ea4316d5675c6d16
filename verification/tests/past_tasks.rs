use daynotes::config::PastUncompletedTask;
use daynotes::hierarchy::{MonthDir, NoteFile, YearDir};
use daynotes::past_tasks::{
    classify_line, delete_past_task, drop_marked, generate_task_id, keep_undismissed, note_path_of,
    indented, open_tasks_of, remove_task, scan_past_uncompleted, select_tasks, task_text_in,
    to_hex, LineKind, MarkedLine,
    PastTaskError,
};
use std::collections::hash_map::DefaultHasher;
use std::hash::{Hash, Hasher};

const NOTE: &str = "## \u{5f85}\u{529e}\u{4e8b}\u{9879}\n- [ ] buy milk\n  - [ ] 2%\n## \u{5b8c}\u{6210}\u{4e8b}\u{9879}\n- [x] done";

fn year(name: &str, months: Vec<MonthDir>) -> YearDir {
    YearDir { name: name.to_string(), is_dir: true, months }
}

fn month(name: &str, files: Vec<NoteFile>) -> MonthDir {
    MonthDir { name: name.to_string(), is_dir: true, files }
}

fn file(name: &str, content: &str) -> NoteFile {
    NoteFile { name: name.to_string(), content: Some(content.to_string()) }
}

fn chars(text: &str) -> Vec<char> {
    text.chars().collect()
}

#[test]
fn task_id_is_the_hash_in_hex() {
    let mut hasher = DefaultHasher::new();
    "2024-01-01:buy milk".to_string().hash(&mut hasher);
    let expected = format!("{:x}", hasher.finish());
    assert_eq!(generate_task_id("2024-01-01", "buy milk"), expected);
    assert_eq!(generate_task_id("2024-01-01", "buy milk"), generate_task_id("2024-01-01", "buy milk"));
    assert_ne!(generate_task_id("2024-01-01", "buy milk"), generate_task_id("2024-01-02", "buy milk"));
    assert_ne!(generate_task_id("2024-01-01", "buy milk"), "2024-01-01:buy milk");
}

#[test]
fn hex_has_no_leading_zeros() {
    assert_eq!(to_hex(0), "0");
    assert_eq!(to_hex(15), "f");
    assert_eq!(to_hex(16), "10");
    assert_eq!(to_hex(0xdead_beef), "deadbeef");
    assert_eq!(to_hex(u64::MAX), "ffffffffffffffff");
    assert_eq!(to_hex(0x0123_4567_89ab_cdef), "123456789abcdef");
    for n in [0u64, 9, 10, 255, 4096, u64::MAX / 3, u64::MAX] {
        let text = to_hex(n);
        assert_eq!(text, format!("{:x}", n));
        assert!(1 <= text.len() && text.len() <= 16);
        assert!(text.chars().all(|c| c.is_ascii_digit() || ('a'..='f').contains(&c)));
    }
}

#[test]
fn scan_example() {
    let tree = vec![year("2024", vec![month("01", vec![file("01-01.md", NOTE)])])];
    let tasks = scan_past_uncompleted(&tree, &Vec::new(), "2024-01-02").unwrap();
    assert_eq!(tasks.len(), 1);
    assert_eq!(tasks[0].text, "buy milk");
    assert_eq!(tasks[0].source_date, "2024-01-01");
    assert_eq!(tasks[0].id, generate_task_id("2024-01-01", "buy milk"));
}

#[test]
fn scan_leaves_out_today_and_later() {
    let tree = vec![year("2024", vec![month("01", vec![file("01-01.md", NOTE)])])];
    assert_eq!(scan_past_uncompleted(&tree, &Vec::new(), "2024-01-01").unwrap().len(), 0);
    assert_eq!(scan_past_uncompleted(&tree, &Vec::new(), "2023-12-31").unwrap().len(), 0);
}

#[test]
fn scan_leaves_out_dismissed_tasks() {
    let tree = vec![year("2024", vec![month("01", vec![file("01-01.md", NOTE)])])];
    let dismissed = vec![generate_task_id("2024-01-01", "buy milk")];
    assert_eq!(scan_past_uncompleted(&tree, &dismissed, "2024-01-02").unwrap().len(), 0);
    let other = vec![generate_task_id("2024-01-01", "buy bread")];
    assert_eq!(scan_past_uncompleted(&tree, &other, "2024-01-02").unwrap().len(), 1);
}

#[test]
fn scan_refuses_a_malformed_today() {
    assert_eq!(
        scan_past_uncompleted(&Vec::new(), &Vec::new(), "yesterday").err(),
        Some(PastTaskError::MalformedDate)
    );
}

#[test]
fn scan_puts_the_latest_day_first() {
    let todo = "## \u{5f85}\u{529e}\u{4e8b}\u{9879}\n";
    let tree = vec![
        year(
            "2024",
            vec![
                month("01", vec![
                    file("01-05.md", &format!("{todo}- [ ] five a\n- [ ] five b")),
                    file("01-20.md", &format!("{todo}- [ ] twenty")),
                ]),
                month("02", vec![file("02-01.md", &format!("{todo}- [ ] february"))]),
            ],
        ),
        year("2023", vec![month("12", vec![file("12-31.md", &format!("{todo}- [ ] old"))])]),
    ];
    let tasks = scan_past_uncompleted(&tree, &Vec::new(), "2024-03-01").unwrap();
    let texts: Vec<&str> = tasks.iter().map(|t| t.text.as_str()).collect();
    assert_eq!(texts, vec!["february", "twenty", "five a", "five b", "old"]);
    let dates: Vec<&str> = tasks.iter().map(|t| t.source_date.as_str()).collect();
    assert_eq!(dates, vec!["2024-02-01", "2024-01-20", "2024-01-05", "2024-01-05", "2023-12-31"]);
}

#[test]
fn open_tasks_follow_the_sections() {
    let content = "- [ ] before any section\n## \u{5f85}\u{529e}\u{4e8b}\u{9879}\n- [ ] one\n - [ ] one space\n  - [ ] child\n\t- [ ] tab\n-[ ]tight\n- [x] checked\n- [ ]    \n## \u{7b14}\u{8bb0}\n- [ ] in notes\n## \u{5f85}\u{529e}\u{4e8b}\u{9879} again\n- [ ]   padded  \n";
    assert_eq!(open_tasks_of(content), vec!["one", "tight", "padded"]);
    assert_eq!(open_tasks_of(""), Vec::<String>::new());
}

#[test]
fn classify_tells_the_lines_apart() {
    assert!(matches!(classify_line(&chars("## \u{5f85}\u{529e}\u{4e8b}\u{9879}")), LineKind::TodoHeader));
    assert!(matches!(classify_line(&chars("## \u{5b8c}\u{6210}\u{4e8b}\u{9879}")), LineKind::ClosingHeader));
    assert!(matches!(classify_line(&chars("x ## \u{7b14}\u{8bb0} y")), LineKind::ClosingHeader));
    assert!(matches!(classify_line(&chars("- [x] done")), LineKind::Other));
    assert!(matches!(classify_line(&chars("  - [ ] child")), LineKind::Other));
    assert!(matches!(classify_line(&chars(" - [ ] one space")), LineKind::Other));
    assert!(matches!(classify_line(&chars("\t- [ ] tab")), LineKind::Other));
    assert!(matches!(classify_line(&chars("\u{3000}- [ ] wide space")), LineKind::Other));
    assert!(matches!(classify_line(&chars("")), LineKind::Other));
    match classify_line(&chars("- [ ] buy milk ")) {
        LineKind::Task(text) => assert_eq!(text, "buy milk"),
        other => panic!("not a task: {:?}", other),
    }
}

#[test]
fn select_takes_tasks_of_open_sections() {
    let kinds = vec![
        LineKind::Task("a".to_string()),
        LineKind::TodoHeader,
        LineKind::Task("b".to_string()),
        LineKind::Other,
        LineKind::Task("c".to_string()),
        LineKind::ClosingHeader,
        LineKind::Task("d".to_string()),
        LineKind::TodoHeader,
        LineKind::Task("e".to_string()),
    ];
    assert_eq!(select_tasks(&kinds), vec!["b", "c", "e"]);
}

#[test]
fn keep_undismissed_filters_by_id() {
    let task = |id: &str| PastUncompletedTask {
        source_date: "2024-01-01".to_string(),
        text: format!("task {id}"),
        id: id.to_string(),
    };
    let tasks = vec![task("a"), task("b"), task("c"), task("a")];
    let kept = keep_undismissed(&tasks, &vec!["a".to_string(), "x".to_string()]);
    let ids: Vec<&str> = kept.iter().map(|t| t.id.as_str()).collect();
    assert_eq!(ids, vec!["b", "c"]);
}

#[test]
fn delete_example() {
    let removal = delete_past_task("2024-01-01", "buy milk", Some(NOTE)).unwrap();
    assert_eq!(removal.path, "2024/01/01-01.md");
    assert_eq!(
        removal.content,
        "## \u{5f85}\u{529e}\u{4e8b}\u{9879}\n## \u{5b8c}\u{6210}\u{4e8b}\u{9879}\n- [x] done"
    );
}

#[test]
fn delete_leaves_other_lines_untouched() {
    let content = "# title\n- [ ] keep me\n- [ ] buy milk\n  child one\n\n  child two\n- [ ] buy milk too\n  its child\n- [x] buy milk\nend\n";
    assert_eq!(
        remove_task(content, "buy milk"),
        "# title\n- [ ] keep me\n- [ ] buy milk too\n  its child\n- [x] buy milk\nend"
    );
}

#[test]
fn delete_takes_the_text_literally() {
    let content = "- [ ] a.b\n- [ ] axb\n- [ ] (1+1)*2?\n";
    assert_eq!(remove_task(content, "a.b"), "- [ ] axb\n- [ ] (1+1)*2?");
    assert_eq!(remove_task(content, "(1+1)*2?"), "- [ ] a.b\n- [ ] axb");
    assert_eq!(remove_task(content, "absent"), "- [ ] a.b\n- [ ] axb\n- [ ] (1+1)*2?");
}

#[test]
fn delete_removes_every_copy_of_the_task() {
    let content = "- [ ] twice\nbetween\n- [ ] twice\n  - [ ] twice\nafter\n - [ ] twice";
    assert_eq!(remove_task(content, "twice"), "between\nafter\n - [ ] twice");
}

#[test]
fn delete_refuses_a_malformed_date() {
    assert_eq!(
        delete_past_task("2024-01", "buy milk", Some(NOTE)).err(),
        Some(PastTaskError::MalformedDate)
    );
    assert_eq!(
        delete_past_task("2024-01-01-01", "buy milk", None).err(),
        Some(PastTaskError::MalformedDate)
    );
}

#[test]
fn delete_needs_the_note() {
    assert_eq!(
        delete_past_task("2024-01-01", "buy milk", None).err(),
        Some(PastTaskError::SourceMissing)
    );
}

#[test]
fn note_path_follows_the_date() {
    assert_eq!(note_path_of("2024-03-09"), Ok("2024/03/03-09.md".to_string()));
    assert_eq!(note_path_of("a-b-c"), Ok("a/b/b-c.md".to_string()));
    assert_eq!(note_path_of("--"), Ok("//-.md".to_string()));
    assert_eq!(note_path_of("20240309"), Err(PastTaskError::MalformedDate));
}

#[test]
fn an_indented_line_is_no_task() {
    let tree = vec![year("2024", vec![month("01", vec![file("01-01.md", "## \u{5f85}\u{529e}\u{4e8b}\u{9879}\n - [ ] x")])])];
    assert_eq!(scan_past_uncompleted(&tree, &Vec::new(), "2024-01-02").unwrap().len(), 0);
    assert_eq!(task_text_in(&chars(" - [ ] x")), None);
    assert_eq!(task_text_in(&chars("- [ ] x")), Some("x".to_string()));
    assert!(indented(&chars(" x")));
    assert!(indented(&chars("\tx")));
    assert!(!indented(&chars("x ")));
    assert!(!indented(&chars("")));
}

#[test]
fn a_task_that_a_scan_reports_can_be_removed() {
    let todo = "## \u{5f85}\u{529e}\u{4e8b}\u{9879}\n";
    for line in ["- [ ] buy milk  ", "- [ ] buy milk", "-[ ]buy milk\t", "-  [\t]   buy milk \u{3000}"] {
        let content = format!("{todo}{line}\n  child\nkeep");
        let found = open_tasks_of(&content);
        assert_eq!(found, vec!["buy milk"], "for {:?}", line);
        let after = remove_task(&content, &found[0]);
        assert_eq!(after, format!("{todo}keep"), "for {:?}", line);
        assert_eq!(open_tasks_of(&after), Vec::<String>::new());
    }
}

#[test]
fn delete_keeps_a_blank_line_before_a_kept_line() {
    assert_eq!(remove_task("- [ ] a\n\nkeep", "a"), "\nkeep");
    assert_eq!(remove_task("- [ ] a\n  child\n\n\nkeep\n", "a"), "\n\nkeep");
    assert_eq!(remove_task("top\n- [ ] a\n\n", "a"), "top\n");
    assert_eq!(remove_task("top\n- [ ] a\n \n\t\n", "a"), "top\n \n\t");
}

#[test]
fn delete_drops_blank_lines_inside_what_is_removed() {
    assert_eq!(remove_task("- [ ] a\n\n- [ ] a\nkeep", "a"), "keep");
    assert_eq!(remove_task("- [ ] a\n  one\n\n  two\n\n- [ ] a\n\nkeep", "a"), "\nkeep");
    assert_eq!(remove_task("- [ ] a\n\n  child\nkeep", "a"), "keep");
}

#[test]
fn drop_marked_skips_targets_and_their_children() {
    let line = |text: &str, is_target: bool, is_indented: bool, is_blank: bool| MarkedLine {
        line: text.to_string(),
        is_target,
        is_indented,
        is_blank,
    };
    let lines = vec![
        line("indented before any target", false, true, false),
        line("blank before any target", false, false, true),
        line("target", true, false, false),
        line("child", false, true, false),
        line("blank inside", false, false, true),
        line("child again", false, true, false),
        line("blank before plain", false, false, true),
        line("plain", false, false, false),
        line("indented after plain", false, true, false),
        line("target again", true, false, false),
        line("blank between", false, false, true),
        line("target after target", true, false, false),
        line("last", false, false, false),
        line("target at the end", true, false, false),
        line("blank at the end", false, false, true),
    ];
    assert_eq!(
        drop_marked(&lines),
        vec![
            "indented before any target",
            "blank before any target",
            "blank before plain",
            "plain",
            "indented after plain",
            "last",
            "blank at the end",
        ]
    );
}
