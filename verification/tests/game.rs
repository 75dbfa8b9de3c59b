use rabst::bms::library::{is_chart_extension, song_entry, sort_keyed_songs, sort_songs, SongEntry};
use rabst::bms::parser::parse;
use rabst::channels::{lane_for_channel, NUM_LANES};
use rabst::game::play::{apply_judgment, player_note_count, record_max_combo, ComboState, Cue, CueLog};
use rabst::game::resources::{grade_for_score, PlayResult};
use rabst::game::song_select::{select_step, SelectAction, SelectKeys, SongLibrary};
use rabst::game::texts::{combo_text, counts_text, grade_line, result_heading, song_list_text};
use std::path::PathBuf;

fn entry(title: &str) -> SongEntry {
    let data = parse(&format!("#TITLE {title}\n")).unwrap();
    song_entry(data, Some("stem"), PathBuf::from(format!("{title}.bms")), PathBuf::from("."))
}

#[test]
fn lanes_follow_channels() {
    assert_eq!(lane_for_channel(0x19), Some(0));
    assert_eq!(lane_for_channel(0x11), Some(1));
    assert_eq!(lane_for_channel(0x16), Some(6));
    assert_eq!(lane_for_channel(0x18), Some(7));
    assert_eq!(lane_for_channel(0x17), None);
    assert_eq!(lane_for_channel(0x01), None);
    assert_eq!(NUM_LANES, 8);
}

#[test]
fn judgments_count_and_combo() {
    let mut combo = ComboState::new();
    let mut result = PlayResult::new();
    for hit in [0, 1, 2, 3, 0, 4, 0] {
        apply_judgment(&mut combo, &mut result, hit);
    }
    assert_eq!((result.perfect, result.great, result.good, result.bad, result.poor), (3, 1, 1, 1, 1));
    assert_eq!(combo.combo, 1);
    assert_eq!(combo.max_combo, 5);
}

#[test]
fn grades_by_score() {
    assert_eq!(grade_for_score(1_000_000), "EX");
    assert_eq!(grade_for_score(950_000), "EX");
    assert_eq!(grade_for_score(949_999), "S");
    assert_eq!(grade_for_score(800_000), "A");
    assert_eq!(grade_for_score(700_000), "B");
    assert_eq!(grade_for_score(600_000), "C");
    assert_eq!(grade_for_score(500_000), "D");
    assert_eq!(grade_for_score(0), "E");
}

#[test]
fn chart_extensions() {
    assert!(is_chart_extension("bms"));
    assert!(is_chart_extension("BME"));
    assert!(is_chart_extension("Bml"));
    assert!(is_chart_extension("pms"));
    assert!(!is_chart_extension("txt"));
    assert!(!is_chart_extension(""));
    assert!(!is_chart_extension("bmsx"));
}

#[test]
fn entry_title_falls_back_to_stem() {
    let data = parse("#ARTIST someone\n#PLAYLEVEL 7\n").unwrap();
    let e = song_entry(data, Some("my_song"), PathBuf::from("a/my_song.bms"), PathBuf::from("a"));
    assert_eq!(e.title, "my_song");
    assert_eq!(e.artist, "someone");
    assert_eq!(e.level, "7");
    let data = parse("").unwrap();
    let e = song_entry(data, None, PathBuf::from("x"), PathBuf::from("."));
    assert_eq!(e.title, "unknown");
    assert_eq!(entry("Named").title, "Named");
}

#[test]
fn songs_sort_by_lowercase_title_stably() {
    let songs = vec![entry("beta"), entry("Alpha"), entry("alpha"), entry("Gamma"), entry("ALPHA")];
    let sorted = sort_songs(songs);
    let titles: Vec<&str> = sorted.iter().map(|s| s.title.as_str()).collect();
    assert_eq!(titles, vec!["Alpha", "alpha", "ALPHA", "beta", "Gamma"]);
}

#[test]
fn cursor_wraps_and_selects() {
    let mut lib = SongLibrary::new();
    let none = SelectKeys { down: false, up: false, enter: false, escape: false };
    assert_eq!(select_step(&mut lib, SelectKeys { enter: true, ..none }), SelectAction::Stay);
    assert_eq!(select_step(&mut lib, SelectKeys { escape: true, ..none }), SelectAction::Quit);
    lib.songs = vec![entry("a"), entry("b"), entry("c")];
    select_step(&mut lib, SelectKeys { up: true, ..none });
    assert_eq!(lib.selected_index, 2);
    select_step(&mut lib, SelectKeys { down: true, ..none });
    assert_eq!(lib.selected_index, 0);
    select_step(&mut lib, SelectKeys { down: true, up: true, ..none });
    assert_eq!(lib.selected_index, 0);
    assert_eq!(select_step(&mut lib, SelectKeys { down: true, enter: true, escape: true, ..none }), SelectAction::Play);
    assert_eq!(lib.selected().map(|s| s.title.as_str()), Some("b"));
}

#[test]
fn player_notes_are_lane_notes() {
    let data = parse("#00101:01010101\n#00111:0101\n#00119:01\n#00117:01\n").unwrap();
    assert_eq!(player_note_count(&data.notes), 3);
}

#[test]
fn keyed_songs_sort_by_key_bytes() {
    let keyed = vec![
        ("b".to_string(), entry("one")),
        ("a".to_string(), entry("two")),
        ("ab".to_string(), entry("three")),
        ("a".to_string(), entry("four")),
        ("B".to_string(), entry("five")),
    ];
    let sorted = sort_keyed_songs(keyed);
    let titles: Vec<&str> = sorted.iter().map(|(_, s)| s.title.as_str()).collect();
    assert_eq!(titles, vec!["five", "two", "four", "three", "one"]);
}

#[test]
fn background_candidates_in_order() {
    let data = parse("#BANNER b.png\n#BACKBMP back.bmp\n").unwrap();
    assert_eq!(rabst::game::loading::background_images(&data), vec!["back.bmp", "b.png"]);
    let data = parse("#STAGEFILE s.png\n#BANNER b.png\n#BACKBMP x\\y.bmp\n").unwrap();
    assert_eq!(rabst::game::loading::background_images(&data), vec!["x/y.bmp", "s.png", "b.png"]);
    let data = parse("").unwrap();
    assert!(rabst::game::loading::background_images(&data).is_empty());
}

#[test]
fn background_objects_cue_once() {
    let mut log = CueLog::new();
    assert_eq!(log.cue(0x01, 5), Cue::Sound(5));
    assert_eq!(log.cue(0x01, 5), Cue::Silent);
    assert!(log.contains(0x01, 5));
    assert_eq!(log.cue(0x01, 6), Cue::Sound(6));
    assert_eq!(log.cue(0x04, 5), Cue::Image(5));
    assert_eq!(log.cue(0x07, 9), Cue::Image(9));
    assert_eq!(log.cue(0x07, 9), Cue::Silent);
    assert_eq!(log.cue(0x08, 1), Cue::Silent);
    assert!(log.contains(0x08, 1));
    // Player and other channels are never remembered.
    assert_eq!(log.cue(0x11, 1), Cue::Silent);
    assert!(!log.contains(0x11, 1));
    assert_eq!(log.cue(0x06, 2), Cue::Silent);
    assert!(!log.contains(0x06, 2));
    log.clear();
    assert!(!log.contains(0x01, 5));
    assert_eq!(log.cue(0x01, 5), Cue::Sound(5));
}

fn full_entry(title: &str, level: &str, artist: &str) -> SongEntry {
    let data = parse(&format!("#TITLE {title}\n#PLAYLEVEL {level}\n#ARTIST {artist}\n")).unwrap();
    song_entry(data, None, PathBuf::from("a.bms"), PathBuf::from("."))
}

#[test]
fn song_list_text_marks_the_cursor() {
    let mut library = SongLibrary::new();
    assert_eq!(
        song_list_text(&library),
        "No BMS files found. Put .bms files in a `songs/` folder."
    );
    library.songs.push(full_entry("Alpha", "7", "Someone"));
    library.songs.push(full_entry("Beta", "12", "Other"));
    library.selected_index = 1;
    assert_eq!(
        song_list_text(&library),
        "   [ 1] Alpha (LEVEL 7) - Someone\n>> [ 2] Beta (LEVEL 12) - Other\n"
    );
    for i in 0..9 {
        library.songs.push(full_entry(&format!("S{i}"), "1", "A"));
    }
    library.selected_index = 10;
    let text = song_list_text(&library);
    let lines: Vec<&str> = text.lines().collect();
    assert_eq!(lines.len(), 11);
    assert_eq!(lines[9], "   [10] S7 (LEVEL 1) - A");
    assert_eq!(lines[10], ">> [11] S8 (LEVEL 1) - A");
}

#[test]
fn score_scene_texts() {
    let mut result = PlayResult::new();
    result.title = "Song".to_string();
    result.perfect = 1234;
    result.great = 56;
    result.good = 7;
    result.bad = 0;
    result.poor = 12345;
    result.max_combo = 890;
    assert_eq!(result_heading(&result), "RESULT — Song");
    assert_eq!(grade_line(987654), "GRADE: EX   (987654)");
    assert_eq!(grade_line(0), "GRADE: E   (0)");
    assert_eq!(
        counts_text(&result),
        "PERFECT 1234\nGREAT     56\nGOOD       7\nBAD        0\nPOOR    12345\n\nMAX COMBO 890"
    );
    assert_eq!(combo_text(0), "Combo: 0");
    assert_eq!(combo_text(4294967295), "Combo: 4294967295");
}

#[test]
fn longest_combo_is_handed_to_the_result() {
    let mut combo = ComboState::new();
    let mut result = PlayResult::new();
    result.title = "t".to_string();
    for hit in [0, 1, 4, 0] {
        apply_judgment(&mut combo, &mut result, hit);
    }
    assert_eq!(result.max_combo, 0);
    record_max_combo(&mut result, &combo);
    assert_eq!(result.max_combo, 2);
    assert_eq!(result.title, "t");
    assert_eq!((result.perfect, result.great, result.poor), (2, 1, 1));
}
