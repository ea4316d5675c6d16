use daynotes::text::{
    blank, chars_of, find, has_within, join, matches_at, precedes, slice_of,
    split_fields, split_lines, string_of, strip_suffixes, strip_trailing,
    tail_after_last, trim,
};

fn chars(text: &str) -> Vec<char> {
    text.chars().collect()
}

fn text(v: Vec<char>) -> String {
    v.into_iter().collect()
}

fn texts(v: Vec<Vec<char>>) -> Vec<String> {
    v.into_iter().map(text).collect()
}

#[test]
fn chars_and_strings_convert() {
    assert_eq!(chars_of("a\u{7b14}b"), vec!['a', '\u{7b14}', 'b']);
    assert_eq!(string_of(&chars("a\u{7b14}b")), "a\u{7b14}b");
    assert_eq!(chars_of(""), Vec::<char>::new());
    assert_eq!(text(slice_of(&chars("hello"), 1, 3)), "el");
}

#[test]
fn lines_split_as_std_does() {
    for content in ["", "a", "a\n", "a\nb", "a\r\nb\r\n", "\n", "\n\n", "a\rb", "a\r", "a\r\n", "\r\n\r\n", "x\n\ny\n \n"] {
        let expected: Vec<String> = content.lines().map(|l| l.to_string()).collect();
        assert_eq!(texts(split_lines(&chars(content))), expected, "for {:?}", content);
    }
    assert_eq!(texts(split_lines(&chars("a\r\nb\n\nc"))), vec!["a", "b", "", "c"]);
}

#[test]
fn fields_split_as_std_does() {
    for content in ["", "a", "a-b", "a--b", "-", "--", "2024-01-02", "-a-"] {
        let expected: Vec<String> = content.split('-').map(|l| l.to_string()).collect();
        assert_eq!(texts(split_fields(&chars(content), '-')), expected, "for {:?}", content);
    }
}

#[test]
fn join_puts_the_separator_between() {
    assert_eq!(text(join(&vec![chars("a"), chars(""), chars("b")], &chars("\n"))), "a\n\nb");
    assert_eq!(text(join(&vec![chars("a")], &chars(", "))), "a");
    assert_eq!(text(join(&Vec::new(), &chars(", "))), "");
    assert_eq!(text(join(&vec![chars(""), chars("")], &chars("-"))), "-");
}

#[test]
fn strip_as_std_does() {
    for s in ["", " ", "  a ", "a  ", "   ", " \ta"] {
        assert_eq!(text(strip_trailing(&chars(s), ' ')), s.trim_end_matches(' '));
    }
    for s in ["", "a.git", "a.git.git", ".git", "git", "a.gitx", "a.gi"] {
        assert_eq!(text(strip_suffixes(&chars(s), &chars(".git"))), s.trim_end_matches(".git"));
    }
    assert_eq!(text(strip_suffixes(&chars("abc"), &chars(""))), "abc");
}

#[test]
fn trim_as_std_does() {
    for s in ["", " ", " a b ", "\t\na\u{3000}", "\u{a0}x\u{2003}", "a", "  \r\n"] {
        assert_eq!(text(trim(&chars(s))), s.trim(), "for {:?}", s);
        assert_eq!(blank(&chars(s)), s.trim().is_empty(), "for {:?}", s);
    }
}

#[test]
fn tail_after_last_as_std_does() {
    for s in ["", "a", "a/b", "a/b/", "/", "a//b", "/a"] {
        assert_eq!(text(tail_after_last(&chars(s), '/')), s.rsplit('/').next().unwrap());
    }
}

#[test]
fn find_as_std_does() {
    for (s, p) in [("", ""), ("abc", ""), ("abc", "c"), ("abcabc", "bc"), ("abc", "d"), ("ab", "abc"), ("a://b://c", "://"), ("\u{7b14}x", "x")] {
        let expected = s.find(p).map(|at| s[..at].chars().count());
        assert_eq!(find(&chars(s), &chars(p)), expected, "for {:?} in {:?}", p, s);
        assert_eq!(has_within(&chars(s), &chars(p)), s.contains(p));
    }
    assert!(matches_at(&chars("abc"), &chars("bc"), 1));
    assert!(!matches_at(&chars("abc"), &chars("bc"), 2));
    assert!(!matches_at(&chars("abc"), &chars("bc"), 7));
    assert!(matches_at(&chars("abc"), &chars(""), 3));
}

#[test]
fn precedes_as_std_does() {
    let samples = ["", "a", "ab", "b", "B", "a\u{7b14}", "\u{7b14}", "10", "2", "aa"];
    for a in samples {
        for b in samples {
            assert_eq!(precedes(&chars(a), &chars(b)), a <= b, "for {:?} and {:?}", a, b);
        }
    }
}
