use rabst::bms::parser::parse;
use rabst::bms::timing::{timing_events, EventKind};

fn describe(k: &EventKind) -> String {
    match k {
        EventKind::Note(i) => format!("note{i}"),
        EventKind::BpmValue(v) => format!("bpm{v}"),
        EventKind::BpmText(t) => format!("bpm:{t}"),
        EventKind::Stop(t) => format!("stop:{t}"),
    }
}

#[test]
fn events_come_in_chart_order() {
    let data = parse(
        "#BPM01 180\n#STOP01 96\n\
         #00211:01\n\
         #00111:0001\n\
         #00108:0001\n\
         #00109:01\n\
         #00103:3C00\n",
    )
    .unwrap();
    let events = timing_events(&data);
    let order: Vec<String> = events.iter().map(|e| describe(&e.kind)).collect();
    // measure 1: stop at 0, channel-03 tempo (3C = 120) at 0; at 1/2: note 1 and the
    // #BPM01 change; measure 2: note 0.
    assert_eq!(
        order,
        vec!["note3", "note4", "stop:96", "bpm120", "note1", "note2", "bpm:180", "note0"]
    );
    for w in events.windows(2) {
        let (a, b) = (&w[0], &w[1]);
        assert!(
            a.measure < b.measure
                || (a.measure == b.measure && a.slot * b.slots <= b.slot * a.slots)
        );
    }
}

#[test]
fn unknown_tempo_ids_place_no_event() {
    let data = parse("#00108:02\n#00109:03\n#00103:00\n").unwrap();
    let events = timing_events(&data);
    assert!(events.iter().all(|e| matches!(e.kind, EventKind::Note(_))));
    assert_eq!(events.len(), data.notes.len());
}
