use daynotes::file_manager::{
    get_config_path, get_past_uncompleted_path, get_stats_path, join_path, sort_names, FileManager,
};

fn chars(text: &str) -> Vec<char> {
    text.chars().collect()
}

fn joined(base: &str, rel: &str) -> String {
    join_path(&chars(base), &chars(rel)).into_iter().collect()
}

#[test]
fn join_adds_one_separator() {
    assert_eq!(joined("/data", "2024"), "/data/2024");
    assert_eq!(joined("/data/", "2024"), "/data/2024");
    assert_eq!(joined("", "2024"), "2024");
    assert_eq!(joined("/data", ""), "/data/");
    assert_eq!(joined("/data", "/etc/passwd"), "/etc/passwd");
    assert_eq!(joined("data", "a/b.md"), "data/a/b.md");
}

#[test]
fn join_agrees_with_std_paths() {
    for (base, rel) in [("/data", "2024"), ("/data/", "x/y"), ("", "x"), ("a", ""), ("a", "/b"), ("a//", "b")] {
        let expected = std::path::Path::new(base).join(rel);
        assert_eq!(joined(base, rel), expected.to_str().unwrap());
    }
}

#[test]
fn derived_files_are_in_the_data_directory() {
    assert_eq!(get_stats_path("/home/me/notes"), "/home/me/notes/.desktop_data/stats.json");
    assert_eq!(
        get_past_uncompleted_path("/home/me/notes/"),
        "/home/me/notes/.desktop_data/past_uncompleted.json"
    );
    assert_eq!(get_config_path("notes"), "notes/.desktop_data/config.json");
    assert_eq!(get_stats_path(""), ".desktop_data/stats.json");
}

#[test]
fn full_path_is_seen_from_the_base() {
    let manager = FileManager::new();
    assert_eq!(manager.full_path("/data", "2024/01/01-05.md"), "/data/2024/01/01-05.md");
    assert_eq!(manager, FileManager);
}

#[test]
fn a_missing_file_reads_as_empty() {
    let manager = FileManager::new();
    assert_eq!(manager.read_file(None), "");
    assert_eq!(manager.read_file(Some("written".to_string())), "written");
}

#[test]
fn listing_hides_dot_names_and_sorts() {
    let manager = FileManager::new();
    let names: Vec<String> = ["b.md", ".git", "a.md", "10", "2", "B.md", ".desktop_data", "a", "", "\u{7b14}"]
        .iter()
        .map(|n| n.to_string())
        .collect();
    let mut expected: Vec<String> = names.iter().filter(|n| !n.starts_with('.')).cloned().collect();
    expected.sort();
    assert_eq!(manager.list_files(&names), expected);
    assert_eq!(manager.list_files(&names), vec!["", "10", "2", "B.md", "a", "a.md", "b.md", "\u{7b14}"]);
    assert_eq!(manager.list_files(&Vec::new()), Vec::<String>::new());
}

#[test]
fn sort_keeps_repeated_names() {
    let names = vec![chars("b"), chars("a"), chars("b"), chars("ab"), chars("a")];
    let sorted: Vec<String> = sort_names(&names).into_iter().map(|n| n.into_iter().collect()).collect();
    assert_eq!(sorted, vec!["a", "a", "ab", "b", "b"]);
}

#[test]
fn attachment_goes_to_the_assets_of_its_month() {
    let place = FileManager::new().upload_attachment("/data", "2024", "03", "photo.png");
    assert_eq!(place.directory, "/data/2024/03/assets");
    assert_eq!(place.file, "/data/2024/03/assets/photo.png");
    assert_eq!(place.reference, "assets/photo.png");
    assert_eq!(place.versioned, "2024/03/assets/photo.png");
}

#[test]
fn a_file_of_a_month_is_committed_by_its_path_from_the_root() {
    assert_eq!(FileManager::new().in_month("2024", "03", "assets/photo.png"), "2024/03/assets/photo.png");
    assert_eq!(FileManager::new().in_month("", "", ""), "//");
}
