use quikcov::driver::{absolute_data_path, data_path, is_seed};
use quikcov::text::{contains, ends_with, squeeze, starts_with};
use quikcov::{Delivery, Error, Gcda, Gcno, Progress, Sessions, SnapshotError, StreamEnd};

fn v_words(values: &[u32]) -> Vec<u8> {
    let mut out = Vec::new();
    for v in values {
        out.extend_from_slice(&v.to_le_bytes());
    }
    out
}

fn v_text(s: &str) -> Vec<u8> {
    let mut bytes = s.as_bytes().to_vec();
    bytes.push(0);
    while bytes.len() % 4 != 0 {
        bytes.push(0);
    }
    let mut out = v_words(&[(bytes.len() / 4) as u32]);
    out.extend_from_slice(&bytes);
    out
}

fn v_notes(cwd: &str, checksum: u32, functions: &[(u32, &str, &str)]) -> Gcno {
    let mut note = v_words(&[0x6763_6e6f]);
    note.extend_from_slice(b"*02B");
    note.extend(v_words(&[0xabcd, checksum]));
    note.extend(v_text(cwd));
    note.extend(v_words(&[0]));
    for (ident, name, file) in functions {
        let mut body = v_words(&[*ident, 0x11, 0x22]);
        body.extend(v_text(name));
        body.extend(v_words(&[0]));
        body.extend(v_text(file));
        body.extend(v_words(&[1, 1, 9, 2]));
        note.extend(v_words(&[0x0100_0000, (body.len() / 4) as u32]));
        note.extend(body);
        note.extend(v_words(&[0x0141_0000, 1, 2]));
        note.extend(v_words(&[0x0143_0000, 12, 0, 1, 0]));
    }
    Gcno::from_slice(&note).unwrap()
}

fn v_data(checksum: u32, ident: u32, count: u32) -> Vec<u8> {
    let mut data = v_words(&[0x6763_6461]);
    data.extend_from_slice(b"*02B");
    data.extend(v_words(&[checksum, 0x0100_0000, 3, ident, 0x11, 0x22, 0x01a1_0000, 2, count, 0]));
    data
}

#[test]
fn data_path_replaces_the_suffix() {
    assert_eq!(data_path("obj/a.gcno"), "obj/a.gcda");
    assert_eq!(data_path("obj/.gcno/a.gcno"), "obj/.gcno/a.gcda");
    assert_eq!(data_path("obj/a.gcno.bak"), "obj/a.gcno.bak");
    assert_eq!(data_path(".gcno"), ".gcda");
    assert_eq!(data_path("gcno"), "gcno");
    assert_eq!(data_path("\u{e9}\u{e9}.gcno"), "\u{e9}\u{e9}.gcda");
}

#[test]
fn absolute_path_joins_and_squeezes() {
    assert_eq!(absolute_data_path("/w", "obj/a.gcda"), "/w/obj/a.gcda");
    assert_eq!(absolute_data_path("/w/", "obj/a.gcda"), "/w/obj/a.gcda");
    assert_eq!(absolute_data_path("/w/", "/obj/a.gcda"), "/w//obj/a.gcda");
    assert_eq!(absolute_data_path("/w/", "./a.gcda"), "/w/./a.gcda");
    assert_eq!(squeeze("a//b///c////"), "a/b//c//");
    assert_eq!(squeeze(""), "");
    assert_eq!(squeeze("/"), "/");
    assert_eq!(squeeze("//"), "/");
}

#[test]
fn text_searches() {
    assert!(ends_with("a.gcda", ".gcda") && ends_with("x", "") && !ends_with("gcda", ".gcda"));
    assert!(!ends_with("a.gcda.", ".gcda"));
    assert!(starts_with("/proc/x", "/proc/") && !starts_with("/pro", "/proc/"));
    assert!(contains("q/README.md", "README.md") && contains("", ""));
    assert!(!contains("README.m", "README.md") && !contains("", "a"));
    assert!(contains("aab", "ab"));
}

#[test]
fn seeds_are_plain_visible_files() {
    assert!(is_seed("q/id:0001", "id:0001", false));
    assert!(!is_seed("q/id:0001", "id:0001", true));
    assert!(!is_seed("q/.state", ".state", false));
    assert!(!is_seed("q/README.md", "README.md", false));
    assert!(!is_seed("q/README.md.orig", "README.md.orig", false));
    assert!(is_seed("q/a.b", "a.b", false));
}

#[test]
fn only_growth_is_reported() {
    let mut progress = Progress::new();
    let mut reported = Vec::new();
    for total in [0usize, 3, 3, 2, 5, 4, 6] {
        let before = progress.best;
        if progress.observe(total) {
            reported.push(total);
        }
        assert!(progress.best >= before);
    }
    assert_eq!(reported, vec![3, 5, 6]);
    assert_eq!(progress.best, 6);
}

#[test]
fn messages_reach_their_sessions() {
    let mut sessions = Sessions::new();
    sessions.register("/w/a.gcda".to_string(), v_notes("/w", 1, &[(7, "f", "a.c")]));
    sessions.register("/w/b.gcda".to_string(), v_notes("/w", 2, &[(8, "g", "b.c")]));
    let ok = Gcda { filepath: "/w/a.gcda".to_string(), data: v_data(1, 7, 5) };
    assert_eq!(sessions.deliver(&ok), Delivery::Folded);
    let stray = Gcda { filepath: "/w/c.gcda".to_string(), data: v_data(1, 7, 5) };
    assert_eq!(sessions.deliver(&stray), Delivery::Unmatched);
    let wrong = Gcda { filepath: "/w/b.gcda".to_string(), data: v_data(1, 7, 5) };
    assert_eq!(sessions.deliver(&wrong), Delivery::Refused(Error::Checksum));
    let coverage = sessions.snapshot().unwrap();
    assert_eq!(coverage.files["a.c"].fns["f"].executed_blocks, 1);
    assert_eq!(coverage.files["b.c"].fns["g"].executed_blocks, 0);
    assert_eq!(sessions.builders.len(), 2);
}

#[test]
fn two_frames_are_two_deliveries() {
    let mut sessions = Sessions::new();
    sessions.register("a".to_string(), v_notes("/w", 1, &[(7, "f", "a.c")]));
    let mut stream = Gcda { filepath: "a".to_string(), data: v_data(1, 7, 5) }.to_frame().unwrap();
    stream.extend(Gcda { filepath: "a".to_string(), data: v_data(1, 7, 2) }.to_frame().unwrap());
    let (log, end) = sessions.absorb(&stream);
    assert_eq!(log, vec![Delivery::Folded, Delivery::Folded]);
    assert_eq!(end, StreamEnd::Eof);
    let coverage = sessions.snapshot().unwrap();
    assert_eq!(coverage.files["a.c"].fns["f"].blocks[0].executions, 7);
}

#[test]
fn broken_streams_end_the_reading() {
    let mut sessions = Sessions::new();
    sessions.register("a".to_string(), v_notes("/w", 1, &[(7, "f", "a.c")]));
    let whole = Gcda { filepath: "a".to_string(), data: v_data(1, 7, 5) }.to_frame().unwrap();
    let mut cut = whole.clone();
    cut.extend_from_slice(&whole[..whole.len() - 1]);
    assert_eq!(sessions.absorb(&cut), (vec![Delivery::Folded], StreamEnd::Truncated));
    let mut garbled = whole.clone();
    garbled.extend_from_slice(&[0, 0, 0, 0, 1, 9]);
    garbled.extend_from_slice(&whole);
    assert_eq!(sessions.absorb(&garbled), (vec![Delivery::Folded], StreamEnd::Undecodable));
    assert_eq!(sessions.absorb(&[]), (vec![], StreamEnd::Eof));
    let mut mixed = Gcda { filepath: "zz".to_string(), data: vec![] }.to_frame().unwrap();
    mixed.extend(Gcda { filepath: "a".to_string(), data: vec![1] }.to_frame().unwrap());
    assert_eq!(
        sessions.absorb(&mixed),
        (vec![Delivery::Unmatched, Delivery::Refused(Error::InsufficientBytes)], StreamEnd::Eof)
    );
    let coverage = sessions.snapshot().unwrap();
    assert_eq!(coverage.files["a.c"].fns["f"].blocks[0].executions, 10);
}

#[test]
fn snapshot_merges_all_sessions() {
    let mut sessions = Sessions::new();
    assert!(matches!(sessions.snapshot(), Err(SnapshotError::NoNotes)));
    sessions.register("a".to_string(), v_notes("/w", 1, &[(7, "f", "a.c"), (8, "g", "a.c")]));
    sessions.register("b".to_string(), v_notes("/w", 2, &[(7, "f", "a.c"), (9, "h", "b.c")]));
    sessions.deliver(&Gcda { filepath: "a".to_string(), data: v_data(1, 7, 5) });
    sessions.deliver(&Gcda { filepath: "b".to_string(), data: v_data(2, 7, 9) });
    sessions.deliver(&Gcda { filepath: "b".to_string(), data: v_data(2, 9, 1) });
    let names = vec!["a".to_string(), "b".to_string()];
    let coverage = sessions.snapshot_in_order(&names).unwrap();
    assert_eq!(coverage.files["a.c"].fns["f"].blocks[0].executions, 9);
    assert_eq!(coverage.files["a.c"].fns["g"].blocks[0].executions, 0);
    assert_eq!(coverage.files["b.c"].fns["h"].blocks[0].executions, 1);
    assert_eq!(coverage.cwd.as_deref(), Some("/w"));
    let both = sessions.snapshot().unwrap();
    assert_eq!(both.files["a.c"].fns["f"].blocks[0].executions, 9);
    assert_eq!(quikcov::CoverageOne::of(&both).covered_blocks, 2);
    assert_eq!(quikcov::CoverageOne::of(&both).total_blocks, 6);
    assert!(matches!(sessions.snapshot_in_order(&vec![]), Err(SnapshotError::NoNotes)));
}

#[test]
fn snapshot_fails_where_a_session_does() {
    let mut sessions = Sessions::new();
    sessions.register("a".to_string(), v_notes("/w", 1, &[(7, "f", "a.c")]));
    sessions.register("b".to_string(), v_notes("/v", 2, &[(9, "h", "b.c")]));
    match sessions.snapshot() {
        Err(SnapshotError::Merge(message)) => assert!(message.contains("/w") && message.contains("/v")),
        _ => panic!("the working directories differ"),
    }
    let mut sessions = Sessions::new();
    sessions.register("a".to_string(), v_notes("/w", 1, &[(7, "f", "a.c"), (8, "f", "a.c")]));
    assert!(matches!(sessions.snapshot(), Err(SnapshotError::Build(Error::Value(_)))));
}

#[test]
fn covered_blocks_grow_with_the_seeds() {
    let mut sessions = Sessions::new();
    sessions.register("a".to_string(), v_notes("/w", 1, &[(7, "f", "a.c"), (8, "g", "a.c")]));
    let mut progress = Progress::new();
    let mut totals = Vec::new();
    for (ident, count) in [(7u32, 0u32), (7, 4), (8, 1), (7, 1)] {
        let stream = Gcda { filepath: "a".to_string(), data: v_data(1, ident, count) }.to_frame().unwrap();
        sessions.absorb(&stream);
        let total = quikcov::CoverageOne::new(sessions.snapshot().unwrap()).covered_blocks;
        progress.observe(total);
        totals.push((total, progress.best));
    }
    assert_eq!(totals, vec![(0, 0), (1, 1), (2, 2), (2, 2)]);
}
