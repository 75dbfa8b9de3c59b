use rabst::bms::model::ObjId;
use rabst::bms::parser::{
    chart_text_ok, normalize_path, parse, parse_channel, parse_note_line, split_first_token,
    strip_comment, strip_key,
};

fn fraction(slot: usize, slots: usize) -> f64 {
    slot as f64 / slots as f64
}

#[test]
fn parses_standard_bms_note_lines() {
    let data = parse(
        "#TITLE standard\n\
         #BPM 174\n\
         #00111:01000200\n\
         #00115:00000300\n",
    )
    .unwrap();

    assert_eq!(data.title, "standard");
    assert_eq!(data.base_bpm.parse::<f64>().unwrap_or(130.0), 174.0);
    assert_eq!(data.notes.len(), 3);
    assert_eq!(data.notes[0].measure, 1);
    assert_eq!(data.notes[0].channel, 0x11);
    assert_eq!(fraction(data.notes[0].slot, data.notes[0].slots), 0.0);
    assert_eq!(data.notes[1].channel, 0x11);
    assert_eq!(fraction(data.notes[1].slot, data.notes[1].slots), 0.5);
    assert_eq!(data.notes[2].channel, 0x15);
    assert_eq!(fraction(data.notes[2].slot, data.notes[2].slots), 0.5);
}

#[test]
fn keeps_legacy_demo_note_line_support() {
    let data = parse("#005:11 02000000\n").unwrap();

    assert_eq!(data.notes.len(), 1);
    assert_eq!(data.notes[0].measure, 5);
    assert_eq!(data.notes[0].channel, 0x11);
    assert_eq!(data.notes[0].obj.0, 2);
}

#[test]
fn header_defaults_and_numbers() {
    let data = parse("#PLAYER x\n#RANK -3\n#GENRE  Trance  \n#PLAYLEVEL 12\n").unwrap();
    assert_eq!(data.player, 1);
    assert_eq!(data.rank, -3);
    assert_eq!(data.genre, "Trance");
    assert_eq!(data.play_level, "12");
    let empty = parse("").unwrap();
    assert_eq!(empty.player, 0);
    assert_eq!(empty.rank, 0);
    assert_eq!(empty.base_bpm.parse::<f64>().unwrap_or(130.0), 130.0);
    assert_eq!(empty.total.parse::<f64>().unwrap_or(100.0), 100.0);
    let bad_rank = parse("#rank abc\n#player +4\n").unwrap();
    assert_eq!(bad_rank.rank, 2);
    assert_eq!(bad_rank.player, 4);
}

#[test]
fn header_keys_ignore_case_and_paths_use_slashes() {
    let data = parse("#title Song\n#StageFile img\\stage.png\n#WAV0a snd\\kick.wav\n#bmp0Z a\\b.bmp\n")
        .unwrap();
    assert_eq!(data.title, "Song");
    assert_eq!(data.stagefile, "img/stage.png");
    assert_eq!(data.wav_files.get(&10).map(|s| s.as_str()), Some("snd/kick.wav"));
    assert_eq!(data.bmp_files.get(&35).map(|s| s.as_str()), Some("a/b.bmp"));
}

#[test]
fn bpm_and_stop_tables_keep_only_decimals() {
    let data = parse("#BPM01 150.5\n#BPM02 fast\n#STOP01 48\n#BPM01 oops\n").unwrap();
    assert_eq!(data.bpm_changes.get(&1).map(|s| s.as_str()), Some("150.5"));
    assert!(data.bpm_changes.get(&2).is_none());
    assert_eq!(data.stop_changes.get(&1).map(|s| s.as_str()), Some("48"));
}

#[test]
fn comments_and_blank_lines_are_ignored() {
    let data = parse("// a comment\n\n   \n#TITLE a // note\n#BANNER http://x/y.png\r\n").unwrap();
    assert_eq!(data.title, "a");
    assert_eq!(data.banner, "http://x/y.png");
    assert_eq!(strip_comment("abc//d"), "abc");
    assert_eq!(strip_comment("http://x"), "http://x");
    assert_eq!(strip_comment("//x"), "");
}

#[test]
fn object_data_places_notes_by_slot() {
    let data = parse("#00212:0000ZZ00aa\n#00213:0\n#00214:\n").unwrap();
    assert_eq!(data.notes.len(), 2);
    assert_eq!(data.notes[0].slot, 2);
    assert_eq!(data.notes[0].slots, 5);
    assert_eq!(data.notes[0].obj, ObjId(1295));
    assert_eq!(data.notes[1].slot, 4);
    assert_eq!(data.notes[1].obj, ObjId(370));
}

#[test]
fn channels_read_as_hex_then_base36() {
    assert_eq!(parse_channel("11"), 0x11);
    assert_eq!(parse_channel(" 1f "), 0x1f);
    assert_eq!(parse_channel("1G"), 36 + 16);
    assert_eq!(parse_channel("+f"), 15);
    assert_eq!(parse_channel(""), 0);
    assert_eq!(parse_channel("123"), 0x12);
}

#[test]
fn note_line_forms() {
    assert_eq!(parse_note_line("00111:0102", None).map(|t| (t.0, t.1, t.2)), Some((1, 0x11, "0102")));
    assert_eq!(parse_note_line("005:11", Some(" 0200 ")).map(|t| (t.0, t.1, t.2)), Some((5, 0x11, "0200")));
    assert_eq!(parse_note_line("005:11", None), None);
    assert_eq!(parse_note_line("abc11:00", None), None);
    assert_eq!(parse_note_line("TITLE", Some("x")), None);
}

#[test]
fn split_token_at_first_white_space() {
    assert_eq!(split_first_token("TITLE my song"), Some(("TITLE", Some("my song"))));
    assert_eq!(split_first_token("TITLE\u{3000}x"), Some(("TITLE", Some("x"))));
    assert_eq!(split_first_token("TITLE"), Some(("TITLE", None)));
    assert_eq!(split_first_token(""), Some(("", None)));
}

#[test]
fn ids_are_base36() {
    assert_eq!(ObjId::from_hex36("ZZ"), ObjId(1295));
    assert_eq!(ObjId::from_hex36("zz"), ObjId(1295));
    assert_eq!(ObjId::from_hex36("0A"), ObjId(10));
    assert_eq!(ObjId::from_hex36("?1"), ObjId(1));
    assert_eq!(strip_key("wav01", "wav"), Some(ObjId(1)));
    assert_eq!(strip_key("wav1", "wav"), None);
    assert_eq!(strip_key("bmp01", "wav"), None);
    assert_eq!(normalize_path("a\\b\\c"), "a/b/c");
}

#[test]
fn unsafe_slicing_is_detected() {
    assert!(chart_text_ok("#TITLE é\n#00111:0102\n"));
    assert!(!chart_text_ok("#00111:aéb\n"));
    assert!(!chart_text_ok("#001:1é 01\n"));
    assert!(chart_text_ok("#001:1é\n"));
}

#[test]
fn object_ids_ignore_case_and_leading_zeros() {
    for s in ["a", "zZ", "1q", "Zz9", "0", "q0Z"] {
        let id = ObjId::from_hex36(s);
        assert_eq!(ObjId::from_hex36(&s.to_ascii_uppercase()), id);
        assert_eq!(ObjId::from_hex36(&s.to_ascii_lowercase()), id);
        assert_eq!(ObjId::from_hex36(&format!("0{s}")), id);
    }
    assert_eq!(ObjId::from_hex36("001"), ObjId(1));
}

#[test]
fn notes_of_joined_text_are_joined() {
    let a = "#TITLE x\n#00111:0102\n";
    let b = "#BPM 150\n#00212:03\n#001:13 04\n";
    let joined = parse(&format!("{a}{b}")).unwrap().notes;
    let mut expected = parse(a).unwrap().notes;
    expected.extend(parse(b).unwrap().notes);
    assert_eq!(joined.len(), 4);
    assert_eq!(joined.len(), expected.len());
    for (x, y) in joined.iter().zip(expected.iter()) {
        assert_eq!((x.channel, x.measure, x.slot, x.slots, x.obj), (y.channel, y.measure, y.slot, y.slots, y.obj));
    }
}
