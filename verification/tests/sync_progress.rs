use moonshine::import::{split_words, word_count_ok, word_source, WordSource};
use moonshine::sync_progress::{sync_mode, SyncMode, SyncPass, SyncTotals};

#[test]
fn strict_is_the_default_mode() {
    assert_eq!(sync_mode(false, false), SyncMode::Strict);
    assert_eq!(sync_mode(false, true), SyncMode::AllowTrial);
    assert_eq!(sync_mode(true, false), SyncMode::ForceTrial);
    assert_eq!(sync_mode(true, true), SyncMode::ForceTrial);
    assert!(sync_mode(false, false).strict());
    assert!(!sync_mode(false, true).strict());
}

#[test]
fn a_sync_runs_until_the_tip() {
    let pass = |n: u32| SyncPass {
        blocks_scanned: n,
        notes_found: 2,
        notes_spent: 1,
        tip_height: 100,
    };
    let mut totals = SyncTotals::new();
    assert!(totals.can_add(&pass(40)));
    assert!(!totals.add_pass(&pass(40), Some(40)));
    assert!(totals.add_pass(&pass(60), Some(100)));
    assert_eq!((totals.scanned, totals.found, totals.spent), (100, 4, 2));
    assert!(totals.add_pass(&pass(0), Some(3)));
    assert!(totals.add_pass(&pass(1), None));
    totals.found = u32::MAX - 1;
    assert!(!totals.can_add(&pass(1)));
}

#[test]
fn words_come_from_arguments_or_a_terminal() {
    assert_eq!(word_source(22, false), WordSource::Arguments);
    assert_eq!(word_source(21, true), WordSource::Terminal);
    assert_eq!(word_source(0, false), WordSource::Refused);
}

#[test]
fn words_are_what_stands_between_white_space() {
    let line = "  abandon\tability \u{2003}able\u{a0}about\n";
    assert_eq!(split_words(line), ["abandon", "ability", "able", "about"]);
    let std: Vec<String> = line.split_whitespace().map(|s| s.to_string()).collect();
    assert_eq!(split_words(line), std);
    assert!(split_words(" \n").is_empty());
    assert!(!word_count_ok(&split_words(line)));
    assert!(word_count_ok(&split_words(&"w ".repeat(22))));
}
