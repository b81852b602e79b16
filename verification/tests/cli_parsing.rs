use todo_app::cli::{fzf_label, parse_with_fzf, subcommand_for, Config, Subcommands};
use todo_app::cli::is_affirmative;
use todo_app::color::{hex_color_string, parse_hex_color};
use todo_app::task::Task;

#[test]
fn subcommands_carry_their_arguments() {
    let sub = subcommand_for("add", Some("t".into()), Some("l".into()));
    match sub {
        Some(Subcommands::Add(Some(t), Some(l))) => {
            assert_eq!(t, "t");
            assert_eq!(l, "l");
        }
        _ => panic!("expected the add subcommand"),
    }
    assert!(matches!(subcommand_for("remove", None, None), Some(Subcommands::Remove(None, None))));
    assert!(matches!(subcommand_for("check", Some("t".into()), None),
        Some(Subcommands::Check(Some(_), None))));
    assert!(matches!(subcommand_for("tasks", None, Some("l".into())),
        Some(Subcommands::Tasks(Some(_)))));
    assert!(matches!(subcommand_for("add-list", None, Some("l".into())),
        Some(Subcommands::AddList(Some(_)))));
    assert!(matches!(subcommand_for("remove-list", None, Some("l".into())),
        Some(Subcommands::RemoveList(Some(_)))));
    assert!(matches!(subcommand_for("lists", None, None), Some(Subcommands::Lists)));
    assert!(subcommand_for("frobnicate", None, None).is_none());
    let cfg = Config { subcommand: subcommand_for("lists", None, None) };
    assert!(cfg.subcommand.is_some());
}

#[test]
fn labels_round_trip_through_the_picker() {
    let label = fzf_label("home", "buy milk");
    assert_eq!(label, "home: buy milk");
    let picked = parse_with_fzf("All", &vec![label, fzf_label("work", "ship")]);
    assert_eq!(
        picked,
        vec![
            ("home".to_string(), "buy milk".to_string()),
            ("work".to_string(), "ship".to_string())
        ]
    );
}

#[test]
fn named_list_labels_are_plain_task_names() {
    let picked = parse_with_fzf("home", &vec!["buy milk".to_string(), "water plants".to_string()]);
    assert_eq!(
        picked,
        vec![
            ("home".to_string(), "buy milk".to_string()),
            ("home".to_string(), "water plants".to_string())
        ]
    );
}

#[test]
fn picker_parsing_cuts_at_the_first_separator() {
    let picked = parse_with_fzf("All", &vec!["home: fix: the sink".to_string()]);
    assert_eq!(picked.len(), 1);
    assert_eq!(picked[0].0, "home");
    assert_eq!(picked[0].1, "fix");
}

#[test]
fn task_labels_show_the_done_mark() {
    let open_task = Task { name: "write".to_string(), checked: false };
    let done_task = Task { name: "write".to_string(), checked: true };
    assert_eq!(open_task.label(), "x write");
    assert_eq!(done_task.label(), "\u{2611} write");
}

#[test]
fn hex_colors_parse_and_print() {
    assert_eq!(parse_hex_color("#1a2B3c"), Some((0x1a, 0x2b, 0x3c)));
    assert_eq!(parse_hex_color("#000000"), Some((0, 0, 0)));
    assert_eq!(parse_hex_color("#ffffff"), Some((255, 255, 255)));
    assert_eq!(parse_hex_color("1a2b3c"), None);
    assert_eq!(parse_hex_color("#1a2b3"), None);
    assert_eq!(parse_hex_color("#1a2b3cd"), None);
    assert_eq!(parse_hex_color("#1a2g3c"), None);
    assert_eq!(hex_color_string(0x1a, 0x2b, 0x3c), "#1a2b3c");
    assert_eq!(hex_color_string(0, 255, 9), "#00ff09");
    let (r, g, b) = parse_hex_color(&hex_color_string(17, 34, 51)).unwrap();
    assert_eq!((r, g, b), (17, 34, 51));
}

#[test]
fn only_a_trimmed_y_is_affirmative() {
    assert!(is_affirmative("y"));
    assert!(is_affirmative("Y"));
    assert!(is_affirmative("y\n"));
    assert!(is_affirmative("  Y \r\n"));
    assert!(!is_affirmative(""));
    assert!(!is_affirmative("\n"));
    assert!(!is_affirmative("n"));
    assert!(!is_affirmative("yes"));
    assert!(!is_affirmative("y y"));
}
