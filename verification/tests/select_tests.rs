use wlines_run::catalog::{Program, SourceType};
use wlines_run::history::History;
use wlines_run::select::{
    build_launch_args, format_program_display_name, match_selection, process_selection,
    render_candidates, split_args, SelectionOutcome,
};

fn prog(title: &str, abs: &str, source: SourceType) -> Program {
    Program {
        title: String::from(title),
        source,
        abs_path: String::from(abs),
    }
}

#[test]
fn label_rendering() {
    let p = prog("notepad", "C:/notepad.exe", SourceType::Path);
    assert_eq!(format_program_display_name(&p), "P] notepad");
    let s = prog("calc.lnk", "C:/menu/calc.lnk", SourceType::StartMenu);
    assert_eq!(format_program_display_name(&s), "S] calc.lnk");
}

#[test]
fn candidate_lines() {
    let progs = vec![
        prog("notepad", "C:/notepad.exe", SourceType::Path),
        prog("calc.lnk", "C:/menu/calc.lnk", SourceType::StartMenu),
    ];
    assert_eq!(render_candidates(&progs), "P] notepad: \nS] calc.lnk: \n");
}

#[test]
fn label_matching_with_arguments() {
    let progs = vec![prog("notepad", "C:/notepad.exe", SourceType::Path)];
    assert_eq!(match_selection(&progs, "P] notepad: file.txt"), Some(0));
    // Without the delimiter the line does not match.
    assert_eq!(match_selection(&progs, "P] notepad"), None);
}

#[test]
fn matching_picks_first_label() {
    let progs = vec![
        prog("note", "C:/note.exe", SourceType::Path),
        prog("notepad", "C:/notepad.exe", SourceType::Path),
    ];
    assert_eq!(match_selection(&progs, "P] notepad: "), Some(1));
    assert_eq!(match_selection(&progs, "P] note: "), Some(0));
}

#[test]
fn argument_tokenization() {
    let toks = split_args("--flag \"has space\"").unwrap();
    assert_eq!(toks, vec![String::from("--flag"), String::from("has space")]);
    assert!(split_args("\"unterminated").is_none());
    assert_eq!(split_args("").unwrap(), Vec::<String>::new());
}

#[test]
fn matched_selection_records_launch() {
    let progs = vec![prog("notepad", "C:/notepad.exe", SourceType::Path)];
    let mut h = History::new();
    let r = process_selection(&progs, &mut h, Some("P] notepad: file.txt"), 777);
    match r {
        SelectionOutcome::Launch { index, args } => {
            assert_eq!(index, 0);
            assert_eq!(args, vec![String::from("file.txt")]);
        }
        _ => panic!("expected a launch"),
    }
    let rec = h.lookup(&String::from("C:/notepad.exe")).unwrap();
    assert_eq!(rec.rank, 1);
    assert_eq!(rec.access, 777);
}

#[test]
fn selection_without_arguments() {
    let progs = vec![prog("notepad", "C:/notepad.exe", SourceType::Path)];
    let mut h = History::new();
    let r = process_selection(&progs, &mut h, Some("P] notepad: "), 5);
    match r {
        SelectionOutcome::Launch { index, args } => {
            assert_eq!(index, 0);
            // Only whitespace follows the delimiter: no arguments.
            assert!(args.is_empty());
        }
        _ => panic!("expected a launch"),
    }
}

#[test]
fn cancellation_leaves_history_unchanged() {
    let progs = vec![prog("notepad", "C:/notepad.exe", SourceType::Path)];
    let mut h = History::new();
    h.record_launch(&String::from("C:/notepad.exe"), 1);
    let r = process_selection(&progs, &mut h, None, 99);
    assert!(matches!(r, SelectionOutcome::Cancelled));
    let rec = h.lookup(&String::from("C:/notepad.exe")).unwrap();
    assert_eq!(rec.rank, 1);
    assert_eq!(rec.access, 1);
    assert_eq!(h.items().len(), 1);
}

#[test]
fn unmatched_selection_leaves_history_unchanged() {
    let progs = vec![prog("notepad", "C:/notepad.exe", SourceType::Path)];
    let mut h = History::new();
    let r = process_selection(&progs, &mut h, Some("P] wordpad: x"), 99);
    assert!(matches!(r, SelectionOutcome::Unmatched));
    assert!(h.lookup(&String::from("C:/notepad.exe")).is_none());
    assert_eq!(h.items().len(), 0);
}

#[test]
fn malformed_arguments_leave_history_unchanged() {
    let progs = vec![prog("notepad", "C:/notepad.exe", SourceType::Path)];
    let mut h = History::new();
    let r = process_selection(&progs, &mut h, Some("P] notepad: \"broken"), 99);
    assert!(matches!(r, SelectionOutcome::BadArgs));
    assert_eq!(h.items().len(), 0);
}

#[test]
fn launch_argument_list() {
    let args = vec![String::from("a"), String::from("b c")];
    let cmd = build_launch_args(&String::from("C:/x.exe"), &args);
    assert_eq!(
        cmd,
        vec![
            String::from("/c"),
            String::from("start"),
            String::from(""),
            String::from("C:/x.exe"),
            String::from("a"),
            String::from("b c"),
        ]
    );
}
