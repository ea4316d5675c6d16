use daynotes::calendar::Day;
use daynotes::daily::{DailyLog, DailyStats, DayRecord};
use daynotes::hierarchy::{MonthDir, NoteFile, YearDir};
use daynotes::stats::{
    calculate_summary, count_marks, parse_tasks_from_content, BoxMarks, recalculate_stats, summarize, update_daily_stats,
    Ratio, Statistics, StatsError, StatsSummary,
};

fn day(text: &str) -> Day {
    Day::parse(text).unwrap()
}

fn counts(total: u32, completed: u32, uncompleted: u32) -> DailyStats {
    DailyStats { total, completed, uncompleted }
}

fn log_of(entries: &[(&str, DailyStats)]) -> DailyLog {
    let mut log = DailyLog::new();
    for (date, stats) in entries {
        log.upsert(day(date), *stats);
    }
    log
}

fn tree_of(notes: &[(&str, &str, &str, &str)]) -> Vec<YearDir> {
    let mut years: Vec<YearDir> = Vec::new();
    for (year, month, file, content) in notes {
        if !years.iter().any(|y| y.name == *year) {
            years.push(YearDir { name: year.to_string(), is_dir: true, months: Vec::new() });
        }
        let y = years.iter_mut().find(|y| y.name == *year).unwrap();
        if !y.months.iter().any(|m| m.name == *month) {
            y.months.push(MonthDir { name: month.to_string(), is_dir: true, files: Vec::new() });
        }
        let m = y.months.iter_mut().find(|m| m.name == *month).unwrap();
        m.files.push(NoteFile { name: file.to_string(), content: Some(content.to_string()) });
    }
    years
}

#[test]
fn parse_counts_boxes_anywhere() {
    let stats = parse_tasks_from_content("intro\n- [x] a\n  - [ ] b\ntext - [x] c - [ ] d\n").unwrap();
    assert_eq!(stats, counts(4, 2, 2));
}

#[test]
fn parse_counts_lines_not_boxes() {
    assert_eq!(parse_tasks_from_content("- [x] a - [x] b").unwrap(), counts(1, 1, 0));
    assert_eq!(parse_tasks_from_content("- [x] a - [ ] b").unwrap(), counts(2, 1, 1));
    assert_eq!(parse_tasks_from_content("- [x] a\r\n- [x] b\n\n- [ ] c").unwrap(), counts(3, 2, 1));
    assert_eq!(parse_tasks_from_content("- [x\n] a").unwrap(), counts(0, 0, 0));
}

#[test]
fn count_marks_counts_each_line_once() {
    let marks = vec![
        BoxMarks { checked: true, unchecked: false },
        BoxMarks { checked: false, unchecked: false },
        BoxMarks { checked: true, unchecked: true },
        BoxMarks { checked: false, unchecked: true },
        BoxMarks { checked: false, unchecked: true },
    ];
    assert_eq!(count_marks(&marks), Some(counts(5, 2, 3)));
    assert_eq!(count_marks(&Vec::new()), Some(counts(0, 0, 0)));
}

#[test]
fn parse_total_is_sum() {
    for content in ["", "- [x]", "- [ ]- [ ]- [ ]", "- [X] not counted", "-[x] nor this", "- [x]\n- [ ]"] {
        let stats = parse_tasks_from_content(content).unwrap();
        assert_eq!(stats.total, stats.completed + stats.uncompleted);
    }
    assert_eq!(parse_tasks_from_content("- [X] not counted").unwrap(), counts(0, 0, 0));
    assert_eq!(parse_tasks_from_content("- [ ]- [ ]- [ ]").unwrap(), counts(1, 0, 1));
}

#[test]
fn from_counts_refuses_what_does_not_fit() {
    assert_eq!(DailyStats::from_counts(1, 2), Some(counts(3, 1, 2)));
    assert_eq!(DailyStats::from_counts(u32::MAX as usize, 0), Some(counts(u32::MAX, u32::MAX, 0)));
    assert_eq!(DailyStats::from_counts(u32::MAX as usize, 1), None);
    assert_eq!(DailyStats::from_counts(u32::MAX as usize + 1, 0), None);
}

#[test]
fn streak_example() {
    let log = log_of(&[
        ("2024-01-01", counts(2, 2, 0)),
        ("2024-01-02", counts(1, 1, 0)),
        ("2024-01-03", counts(3, 1, 2)),
    ]);
    let summary = calculate_summary(&log, "2024-01-03");
    assert_eq!(summary.current_streak, 0);
    assert_eq!(summary.longest_streak, 2);
}

#[test]
fn summary_exact_values() {
    let log = log_of(&[
        ("2024-01-01", counts(2, 2, 0)),
        ("2024-01-02", counts(1, 1, 0)),
        ("2024-01-03", counts(3, 1, 2)),
    ]);
    let summary = calculate_summary(&log, "2024-01-03");
    assert_eq!(
        summary,
        StatsSummary {
            total_tasks_created: 6,
            total_tasks_completed: 4,
            completion_rate: Ratio { numerator: 4, denominator: 6 },
            current_streak: 0,
            longest_streak: 2,
            average_tasks_per_day: Ratio { numerator: 6, denominator: 3 },
            total_days: 3,
            days_with_tasks: 3,
            perfect_days: 2,
        }
    );
}

#[test]
fn summary_of_nothing() {
    let summary = calculate_summary(&DailyLog::new(), "2024-01-03");
    assert_eq!(summary, StatsSummary::default());
    assert_eq!(summary.completion_rate, Ratio { numerator: 0, denominator: 1 });
    assert_eq!(summary.average_tasks_per_day, Ratio { numerator: 0, denominator: 1 });
}

#[test]
fn current_streak_counts_back_from_today() {
    let log = log_of(&[
        ("2024-01-01", counts(2, 2, 0)),
        ("2024-01-02", counts(1, 1, 0)),
        ("2024-01-03", counts(3, 3, 0)),
    ]);
    assert_eq!(calculate_summary(&log, "2024-01-03").current_streak, 3);
    assert_eq!(calculate_summary(&log, "2024-01-02").current_streak, 2);
}

#[test]
fn current_streak_stops_at_a_gap() {
    let log = log_of(&[("2024-01-01", counts(2, 2, 0)), ("2024-01-03", counts(1, 1, 0))]);
    let summary = calculate_summary(&log, "2024-01-03");
    assert_eq!(summary.current_streak, 1);
    assert_eq!(summary.longest_streak, 2);
}

#[test]
fn current_streak_is_zero_when_today_is_missing() {
    let log = log_of(&[("2024-01-01", counts(2, 2, 0)), ("2024-01-02", counts(1, 1, 0))]);
    assert_eq!(calculate_summary(&log, "2024-01-03").current_streak, 0);
}

#[test]
fn current_streak_passes_over_a_day_held_without_tasks() {
    let log = log_of(&[
        ("2024-01-01", counts(2, 2, 0)),
        ("2024-01-02", counts(0, 0, 0)),
        ("2024-01-03", counts(1, 1, 0)),
    ]);
    let summary = calculate_summary(&log, "2024-01-03");
    assert_eq!(summary.current_streak, 2);
    assert_eq!(summary.longest_streak, 2);
    assert_eq!(summary.days_with_tasks, 2);
    assert_eq!(summary.total_days, 3);
}

#[test]
fn current_streak_crosses_a_month() {
    let log = log_of(&[("2024-02-29", counts(1, 1, 0)), ("2024-03-01", counts(1, 1, 0))]);
    assert_eq!(calculate_summary(&log, "2024-03-01").current_streak, 2);
    let other = log_of(&[("2023-02-28", counts(1, 1, 0)), ("2023-03-01", counts(1, 1, 0))]);
    assert_eq!(calculate_summary(&other, "2023-03-01").current_streak, 2);
}

#[test]
fn longest_streak_resets_on_an_imperfect_day() {
    let log = log_of(&[
        ("2024-01-01", counts(1, 1, 0)),
        ("2024-01-02", counts(2, 1, 1)),
        ("2024-01-03", counts(1, 1, 0)),
        ("2024-01-04", counts(1, 1, 0)),
        ("2024-01-05", counts(1, 1, 0)),
        ("2024-01-06", counts(4, 0, 4)),
    ]);
    let summary = calculate_summary(&log, "2024-01-06");
    assert_eq!(summary.longest_streak, 3);
    assert_eq!(summary.perfect_days, 4);
}

#[test]
fn summary_without_today() {
    let log = log_of(&[("2024-01-01", counts(2, 2, 0))]);
    assert_eq!(summarize(&log, None).current_streak, 0);
    assert_eq!(calculate_summary(&log, "not a date").current_streak, 0);
    assert_eq!(calculate_summary(&log, "not a date").longest_streak, 1);
}

#[test]
fn summarize_twice_gives_the_same() {
    let log = log_of(&[("2024-01-01", counts(2, 2, 0)), ("2024-01-02", counts(5, 1, 4))]);
    let today = Some(day("2024-01-02"));
    assert_eq!(summarize(&log, today), summarize(&log, today));
}

#[test]
fn update_refuses_a_future_day() {
    let result = update_daily_stats(Statistics::default(), "2024-01-04", 1, 1, 0, "2024-01-03");
    assert_eq!(result.err(), Some(StatsError::FutureDate));
}

#[test]
fn update_refuses_a_malformed_date() {
    let result = update_daily_stats(Statistics::default(), "2024/01/04", 1, 1, 0, "2024-01-03");
    assert_eq!(result.err(), Some(StatsError::MalformedDate));
    let result = update_daily_stats(Statistics::default(), "2024-02-30", 1, 1, 0, "2024-03-03");
    assert_eq!(result.err(), Some(StatsError::MalformedDate));
    let result = update_daily_stats(Statistics::default(), "2024-01-01", 1, 1, 0, "today");
    assert_eq!(result.err(), Some(StatsError::MalformedDate));
}

#[test]
fn update_sets_and_removes_a_day() {
    let stats = update_daily_stats(Statistics::default(), "2024-01-02", 3, 1, 2, "2024-01-03").unwrap();
    assert_eq!(stats.daily.get(day("2024-01-02")), Some(counts(3, 1, 2)));
    assert_eq!(stats.last_updated, "2024-01-03");
    assert_eq!(stats.summary.total_tasks_created, 3);
    let stats = update_daily_stats(stats, "2024-01-02", 3, 3, 0, "2024-01-03").unwrap();
    assert_eq!(stats.daily.len(), 1);
    assert_eq!(stats.summary.perfect_days, 1);
    let stats = update_daily_stats(stats, "2024-01-02", 0, 0, 0, "2024-01-03").unwrap();
    assert_eq!(stats.daily.len(), 0);
    assert_eq!(stats.daily.get(day("2024-01-02")), None);
    assert_eq!(stats.summary, StatsSummary::default());
}

#[test]
fn update_accepts_today() {
    let stats = update_daily_stats(Statistics::default(), "2024-01-03", 1, 1, 0, "2024-01-03").unwrap();
    assert_eq!(stats.summary.current_streak, 1);
}

#[test]
fn recalculate_scans_the_tree() {
    let tree = tree_of(&[
        ("2024", "01", "01-01.md", "- [x] a\n- [x] b"),
        ("2024", "01", "01-02.md", "- [x] a\n- [ ] b\n- [ ] c"),
        ("2024", "01", "01-03.md", "no tasks here"),
        ("2024", "01", "01-09.md", "- [ ] in the future"),
        ("2024", "01", "notes.md", "- [ ] not a day"),
        ("2024", "01", "1-4.md", "- [ ] not a day"),
        ("2023", "12", "12-31.md", "- [x] last year"),
    ]);
    let stats = recalculate_stats(&tree, "2024-01-03").unwrap();
    assert_eq!(stats.last_updated, "2024-01-03");
    let days: Vec<DayRecord> = stats.daily.to_vec();
    assert_eq!(
        days,
        vec![
            DayRecord { day: day("2023-12-31"), stats: counts(1, 1, 0) },
            DayRecord { day: day("2024-01-01"), stats: counts(2, 2, 0) },
            DayRecord { day: day("2024-01-02"), stats: counts(3, 1, 2) },
        ]
    );
    assert_eq!(stats.summary.total_tasks_created, 6);
    assert_eq!(stats.summary.total_tasks_completed, 4);
    assert_eq!(stats.summary.longest_streak, 2);
    assert_eq!(stats.summary.current_streak, 0);
}

#[test]
fn recalculate_skips_what_is_no_year_or_month() {
    let mut tree = tree_of(&[("2024", "01", "01-01.md", "- [x] a")]);
    tree.push(YearDir {
        name: ".git".to_string(),
        is_dir: true,
        months: vec![MonthDir {
            name: "01".to_string(),
            is_dir: true,
            files: vec![NoteFile { name: "01-02.md".to_string(), content: Some("- [x] a".to_string()) }],
        }],
    });
    tree.push(YearDir { name: "2022".to_string(), is_dir: false, months: Vec::new() });
    tree.push(YearDir {
        name: "2021".to_string(),
        is_dir: true,
        months: vec![
            MonthDir {
                name: "assets".to_string(),
                is_dir: true,
                files: vec![NoteFile { name: "01-02.md".to_string(), content: Some("- [x] a".to_string()) }],
            },
            MonthDir {
                name: "03".to_string(),
                is_dir: true,
                files: vec![NoteFile { name: "03-02.md".to_string(), content: None }],
            },
        ],
    });
    let stats = recalculate_stats(&tree, "2024-06-01").unwrap();
    assert_eq!(stats.daily.len(), 1);
    assert_eq!(stats.daily.get(day("2024-01-01")), Some(counts(1, 1, 0)));
}

#[test]
fn recalculate_refuses_a_malformed_today() {
    assert_eq!(recalculate_stats(&Vec::new(), "03.01.2024").err(), Some(StatsError::MalformedDate));
}

#[test]
fn scan_and_updates_agree() {
    let tree = tree_of(&[
        ("2024", "01", "01-02.md", "- [x] a\n- [ ] b"),
        ("2024", "01", "01-01.md", "- [x] a\n- [x] b"),
    ]);
    let scanned = recalculate_stats(&tree, "2024-01-03").unwrap();
    let updated = update_daily_stats(Statistics::default(), "2024-01-01", 2, 2, 0, "2024-01-03").unwrap();
    let updated = update_daily_stats(updated, "2024-01-02", 5, 5, 0, "2024-01-03").unwrap();
    let updated = update_daily_stats(updated, "2024-01-02", 2, 1, 1, "2024-01-03").unwrap();
    assert_eq!(scanned.daily.to_vec(), updated.daily.to_vec());
    assert_eq!(scanned.summary, updated.summary);
    assert_eq!(scanned.last_updated, updated.last_updated);
}

#[test]
fn daily_log_keeps_days_in_order() {
    let mut log = DailyLog::new();
    log.upsert(day("2024-03-01"), counts(1, 0, 1));
    log.upsert(day("2024-01-01"), counts(2, 0, 2));
    log.upsert(day("2024-02-01"), counts(3, 0, 3));
    log.upsert(day("2024-01-01"), counts(4, 0, 4));
    let days: Vec<u32> = log.to_vec().iter().map(|r| r.stats.total).collect();
    assert_eq!(days, vec![4, 3, 1]);
    assert_eq!(log.position(day("2024-02-01")), Some(1));
    assert_eq!(log.position(day("2024-02-02")), None);
    log.remove(day("2024-02-01"));
    log.remove(day("2024-02-02"));
    assert_eq!(log.len(), 2);
    assert_eq!(log.record(1).stats, counts(1, 0, 1));
    let copy = log.clone();
    assert_eq!(copy.to_vec(), log.to_vec());
}

#[test]
fn record_day_is_the_update() {
    let stats = Statistics::default()
        .record_day(day("2024-01-01"), counts(1, 1, 0), day("2024-01-01"), "2024-01-01")
        .unwrap();
    assert_eq!(stats.summary.current_streak, 1);
    let refused = stats.record_day(day("2024-01-02"), counts(1, 1, 0), day("2024-01-01"), "2024-01-01");
    assert_eq!(refused.err(), Some(StatsError::FutureDate));
}

#[test]
fn rebuild_keeps_the_later_entry() {
    let days = vec![
        DayRecord { day: day("2024-01-01"), stats: counts(1, 1, 0) },
        DayRecord { day: day("2024-01-05"), stats: counts(1, 1, 0) },
        DayRecord { day: day("2024-01-02"), stats: counts(0, 0, 0) },
        DayRecord { day: day("2024-01-01"), stats: counts(2, 1, 1) },
    ];
    let stats = Statistics::rebuild(&days, day("2024-01-03"), "2024-01-03");
    assert_eq!(stats.daily.to_vec(), vec![DayRecord { day: day("2024-01-01"), stats: counts(2, 1, 1) }]);
}

#[test]
fn updates_in_any_order_reach_the_scanned_mapping() {
    let notes = [
        ("2024", "01", "01-01.md", "- [x] a\n- [x] b"),
        ("2024", "01", "01-02.md", "nothing to do"),
        ("2024", "01", "01-03.md", "- [ ] c"),
        ("2024", "01", "01-09.md", "- [ ] later"),
    ];
    let scanned = recalculate_stats(&tree_of(&notes), "2024-01-03").unwrap();
    let mut updated = Statistics::default();
    for (date, content) in [
        ("2024-01-03", "- [ ] c"),
        ("2024-01-09", "- [ ] later"),
        ("2024-01-02", "nothing to do"),
        ("2024-01-01", "- [x] a\n- [x] b"),
    ] {
        let p = parse_tasks_from_content(content).unwrap();
        let before = updated.clone();
        updated = match update_daily_stats(updated, date, p.total, p.completed, p.uncompleted, "2024-01-03") {
            Ok(after) => after,
            Err(error) => {
                assert_eq!(error, StatsError::FutureDate);
                before
            }
        };
    }
    assert_eq!(scanned.daily.to_vec(), updated.daily.to_vec());
    assert_eq!(scanned.summary, updated.summary);
}
