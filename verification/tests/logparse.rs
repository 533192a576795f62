use butido::log::LogItem;
use butido::log::ParsedLog;

fn items_of(log: &[u8]) -> Vec<LogItem> {
    let parsed = ParsedLog::build_from(log);
    parsed.items().iter().map(clone_item).collect()
}

fn clone_item(it: &LogItem) -> LogItem {
    match it {
        LogItem::Line(b) => LogItem::Line(b.clone()),
        LogItem::Progress(u) => LogItem::Progress(*u),
        LogItem::CurrentPhase(p) => LogItem::CurrentPhase(p.clone()),
        LogItem::State(Ok(())) => LogItem::State(Ok(())),
        LogItem::State(Err(m)) => LogItem::State(Err(m.clone())),
    }
}

#[test]
fn empty_log_has_no_items() {
    assert_eq!(items_of(b""), vec![]);
}

#[test]
fn plain_lines_are_kept_verbatim() {
    assert_eq!(
        items_of(b"hello\nworld"),
        vec![
            LogItem::Line(b"hello".to_vec()),
            LogItem::Line(b"world".to_vec()),
        ]
    );
}

#[test]
fn trailing_newline_yields_trailing_empty_line() {
    assert_eq!(
        items_of(b"a\n"),
        vec![LogItem::Line(b"a".to_vec()), LogItem::Line(b"".to_vec())]
    );
}

#[test]
fn non_utf8_bytes_are_preserved() {
    let log = [0xffu8, 0xfe, 0x00, b'\n', b'x'];
    assert_eq!(
        items_of(&log),
        vec![
            LogItem::Line(vec![0xff, 0xfe, 0x00]),
            LogItem::Line(b"x".to_vec()),
        ]
    );
}

#[test]
fn markers_are_parsed() {
    let log = b"starting\n#BUTIDO:PHASE:build\n#BUTIDO:PROGRESS:50\n#BUTIDO:STATE:OK";
    assert_eq!(
        items_of(log),
        vec![
            LogItem::Line(b"starting".to_vec()),
            LogItem::CurrentPhase(b"build".to_vec()),
            LogItem::Progress(50),
            LogItem::State(Ok(())),
        ]
    );
}

#[test]
fn error_state_carries_its_message() {
    let log = b"#BUTIDO:STATE:ERR:disk full";
    assert_eq!(
        items_of(log),
        vec![LogItem::State(Err(b"disk full".to_vec()))]
    );
}

#[test]
fn malformed_progress_stays_a_line() {
    assert_eq!(
        items_of(b"#BUTIDO:PROGRESS:5x"),
        vec![LogItem::Line(b"#BUTIDO:PROGRESS:5x".to_vec())]
    );
    assert_eq!(
        items_of(b"#BUTIDO:PROGRESS:"),
        vec![LogItem::Line(b"#BUTIDO:PROGRESS:".to_vec())]
    );
    assert_eq!(
        items_of(b"#BUTIDO:PROGRESS:99999999999999999999999"),
        vec![LogItem::Line(
            b"#BUTIDO:PROGRESS:99999999999999999999999".to_vec()
        )]
    );
}

#[test]
fn empty_phase_name_stays_a_line() {
    assert_eq!(
        items_of(b"#BUTIDO:PHASE:"),
        vec![LogItem::Line(b"#BUTIDO:PHASE:".to_vec())]
    );
}

#[test]
fn second_state_marker_is_recorded_not_honoured() {
    let log = b"#BUTIDO:STATE:OK\n#BUTIDO:STATE:ERR:late";
    let items = items_of(log);
    assert_eq!(
        items,
        vec![
            LogItem::State(Ok(())),
            LogItem::Line(b"#BUTIDO:STATE:ERR:late".to_vec()),
        ]
    );
    let parsed = ParsedLog::build_from(log);
    assert_eq!(parsed.is_successful(), Some(true));
}

#[test]
fn success_reads_the_first_terminal_state() {
    assert_eq!(
        ParsedLog::build_from(b"#BUTIDO:STATE:OK").is_successful(),
        Some(true)
    );
    assert_eq!(
        ParsedLog::build_from(b"x\n#BUTIDO:STATE:ERR:boom\ny").is_successful(),
        Some(false)
    );
    assert_eq!(ParsedLog::build_from(b"no state here").is_successful(), None);
    assert_eq!(ParsedLog::build_from(b"").is_successful(), None);
}

#[test]
fn render_produces_the_marker_lines() {
    let items = vec![
        LogItem::Line(b"hello".to_vec()),
        LogItem::CurrentPhase(b"build".to_vec()),
        LogItem::Progress(7),
        LogItem::State(Err(b"oops".to_vec())),
    ];
    let rendered = ParsedLog::new(items).render();
    assert_eq!(
        rendered,
        b"hello\n#BUTIDO:PHASE:build\n#BUTIDO:PROGRESS:7\n#BUTIDO:STATE:ERR:oops".to_vec()
    );
}

#[test]
fn items_round_trip_through_render_and_parse() {
    let logs: [&[u8]; 6] = [
        b"hello\nworld\n",
        b"#BUTIDO:PHASE:build\n#BUTIDO:PROGRESS:050\nout.tar\n#BUTIDO:STATE:OK",
        b"#BUTIDO:STATE:ERR:disk full\n#BUTIDO:STATE:OK\ntail",
        b"",
        b"\n\n",
        b"#BUTIDO:PROGRESS:bad\nnormal",
    ];
    for log in logs {
        let first = ParsedLog::build_from(log);
        let rendered = first.render();
        let second = ParsedLog::build_from(&rendered);
        assert_eq!(first.items(), second.items());
    }
}
