use cxline::setup::{remove_legacy_alias, shell_wrapper_block, tmux_block, upsert_block, BlockChange};
use cxline::watch::{log_lines, newest_index, resume_point, title_update};

#[test]
fn blocks_are_created_appended_and_replaced() {
    let block = shell_wrapper_block();
    let (created, c1) = upsert_block(None, "# cxline-codex-wrapper", &block);
    assert_eq!(c1, BlockChange::Created);
    assert_eq!(created, format!("{}\n", block));

    let (appended, c2) = upsert_block(Some("export A=1"), "# cxline-codex-wrapper", &block);
    assert_eq!(c2, BlockChange::Appended);
    assert_eq!(appended, format!("export A=1\n\n{}\n", block));

    let (again, c3) = upsert_block(Some(&appended), "# cxline-codex-wrapper", &block);
    assert_eq!(c3, BlockChange::Updated);
    assert_eq!(again, appended);
}

#[test]
fn old_blocks_are_replaced_in_place_of_the_new_one() {
    let old = "a\n# cxline-managed\nold stuff\n# cxline-managed-end\nb\n";
    let block = tmux_block("/usr/bin/cxline");
    let (new, change) = upsert_block(Some(old), "# cxline-managed", &block);
    assert_eq!(change, BlockChange::Updated);
    assert_eq!(new, format!("a\nb\n{}\n", block));
    assert!(block.contains("#(CXLINE_QUIET=1 /usr/bin/cxline show 2>/dev/null)"));
}

#[test]
fn legacy_alias_is_removed() {
    let rc = "x=1\n# cxline: codex+tmux shortcut\nalias cx='tmux new-session -s cx'\ny=2\n";
    assert_eq!(remove_legacy_alias(rc).unwrap(), "x=1\ny=2\n");
    assert!(remove_legacy_alias("nothing here\n").is_none());
}

#[test]
fn log_records_are_trimmed_non_blank_lines() {
    let lines = log_lines("  {\"a\":1}  \n\n\t\n{\"b\":2}\r\n");
    assert_eq!(lines, vec!["{\"a\":1}".to_string(), "{\"b\":2}".to_string()]);
}

#[test]
fn truncated_logs_restart() {
    assert_eq!(resume_point(100, 50), (true, 0));
    assert_eq!(resume_point(100, 150), (false, 100));
}

#[test]
fn titles_hold_the_visible_text() {
    assert_eq!(title_update("\x1b[31mhi\x1b[0m").unwrap(), "\x1b]0;hi\x07");
    assert!(title_update("\x1b[0m").is_none());
}

#[test]
fn the_first_of_the_newest_files_is_chosen() {
    assert_eq!(newest_index(&vec![]), None);
    assert_eq!(newest_index(&vec![5]), Some(0));
    assert_eq!(newest_index(&vec![3, 9, 2, 9, -1]), Some(1));
    assert_eq!(newest_index(&vec![-7, -3, -5]), Some(1));
}
