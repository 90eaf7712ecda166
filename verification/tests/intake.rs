use calldown::intake::{
    is_whitespace, parse_exclusions, problem_of, swappable_positions, with_solution,
};
use calldown::record::Record;

fn row(date: &str, pinned: Option<bool>, general: &str, ours: &str, exclude: &str) -> Record {
    Record {
        date: date.to_string(),
        pinned,
        general: general.to_string(),
        ours: ours.to_string(),
        exclude: exclude.to_string(),
    }
}

fn same(left: &Record, right: &Record) -> bool {
    left.date == right.date
        && left.pinned == right.pinned
        && left.general == right.general
        && left.ours == right.ours
        && left.exclude == right.exclude
}

#[test]
fn with_ours_changes_ours_alone() {
    let before = row("2024-01-01", Some(true), "A", "B", "C, D");
    let changed = before.with_ours("Z");
    assert!(same(&changed, &row("2024-01-01", Some(true), "A", "Z", "C, D")));
    assert!(same(&before, &row("2024-01-01", Some(true), "A", "B", "C, D")));
    assert_eq!(row("d", None, "g", "o", "e").with_ours("").ours, "");
}

#[test]
fn white_space_is_what_the_standard_library_calls_white_space() {
    for code in 0..=0x11_0000u32 {
        if let Some(c) = char::from_u32(code) {
            assert_eq!(is_whitespace(c), c.is_whitespace(), "U+{:04X}", code);
        }
    }
}

#[test]
fn exclusions_are_split_trimmed_and_freed_of_the_dash() {
    assert_eq!(parse_exclusions("A,B"), vec!["A", "B"]);
    assert_eq!(parse_exclusions(" A , B "), vec!["A", "B"]);
    assert_eq!(parse_exclusions("-"), Vec::<String>::new());
    assert_eq!(parse_exclusions(" - "), Vec::<String>::new());
    assert_eq!(parse_exclusions("A, -, B"), vec!["A", "B"]);
    assert_eq!(parse_exclusions("Ann Lee,\tBo\u{a0}"), vec!["Ann Lee", "Bo"]);
}

#[test]
fn exclusions_keep_empty_parts_and_dashes_inside_names() {
    assert_eq!(parse_exclusions(""), vec![""]);
    assert_eq!(parse_exclusions("   "), vec![""]);
    assert_eq!(parse_exclusions(","), vec!["", ""]);
    assert_eq!(parse_exclusions("A,"), vec!["A", ""]);
    assert_eq!(parse_exclusions(",A"), vec!["", "A"]);
    assert_eq!(parse_exclusions("--"), vec!["--"]);
    assert_eq!(parse_exclusions("A-B, - -"), vec!["A-B", "- -"]);
    assert_eq!(parse_exclusions("é, ü -"), vec!["é", "ü -"]);
}

#[test]
fn exclusions_are_what_split_trim_and_filter_give() {
    let fields = [
        "", "-", "A", "A,B,C", " A ,, - ,B- , -C,-", ",,,", " \t-\n", "a , b,c ,  d  e ,-,-,",
        "\u{3000}x\u{2003},\u{85}-\u{1680}",
    ];
    for field in fields {
        let expected: Vec<String> = field
            .split(',')
            .map(|part| part.trim())
            .filter(|part| "-".ne(*part))
            .map(|part| part.to_string())
            .collect();
        assert_eq!(parse_exclusions(field), expected, "{:?}", field);
    }
}

#[test]
fn swappable_positions_leave_out_the_start_and_the_pinned() {
    let rows = vec![
        row("1", None, "A", "A", "-"),
        row("2", None, "B", "B", "-"),
        row("3", None, "C", "C", "-"),
        row("4", Some(true), "D", "D", "-"),
        row("5", Some(false), "E", "E", "-"),
        row("6", None, "F", "F", "-"),
    ];
    assert_eq!(swappable_positions(&rows, 2), vec![2, 4, 5]);
    assert_eq!(swappable_positions(&rows, 0), vec![0, 1, 2, 4, 5]);
    assert_eq!(swappable_positions(&rows, 5), vec![5]);
    assert_eq!(swappable_positions(&rows, 6), Vec::<usize>::new());
    assert_eq!(swappable_positions(&rows, 100), Vec::<usize>::new());
    assert_eq!(swappable_positions(&[], 0), Vec::<usize>::new());
}

#[test]
fn problem_is_read_off_the_rows() {
    let rows = vec![
        row("1", None, "A", "P", "-"),
        row("2", Some(true), "B", "Q", "P, R"),
        row("3", None, "C", "R", " Q "),
        row("4", Some(false), "D", "S", ""),
    ];
    let problem = problem_of(&rows, 1);
    assert_eq!(problem.initial, vec!["P", "Q", "R", "S"]);
    assert_eq!(problem.generals, vec!["A", "B", "C", "D"]);
    assert_eq!(
        problem.exclusions,
        vec![vec![], vec!["P".to_string(), "R".to_string()], vec!["Q".to_string()], vec![
            "".to_string()
        ]]
    );
    assert_eq!(problem.swappable, vec![2, 3]);
}

#[test]
fn solution_is_merged_back_row_by_row() {
    let rows = vec![
        row("1", None, "A", "P", "-"),
        row("2", Some(true), "B", "Q", "P"),
        row("3", None, "C", "R", "-"),
    ];
    let merged = with_solution(&rows, &["R", "Q", "P"]);
    assert_eq!(merged.len(), 3);
    assert!(same(&merged[0], &row("1", None, "A", "R", "-")));
    assert!(same(&merged[1], &row("2", Some(true), "B", "Q", "P")));
    assert!(same(&merged[2], &row("3", None, "C", "P", "-")));
}

#[test]
fn merge_reaches_as_far_as_the_shorter_of_the_two() {
    let rows = vec![row("1", None, "A", "P", "-"), row("2", None, "B", "Q", "-")];
    assert_eq!(with_solution(&rows, &["X"]).len(), 1);
    assert_eq!(with_solution(&rows, &["X", "Y", "Z"]).len(), 2);
    assert_eq!(with_solution(&rows, &[]).len(), 0);
    assert_eq!(with_solution(&[], &["X"]).len(), 0);
}
