use quikcov::{Error, FileCovBuilder, Gcno, GcnoBlock, GcnoEdge, GcnoFunction};
use std::collections::HashMap;

fn d_words(values: &[u32]) -> Vec<u8> {
    let mut out = Vec::new();
    for v in values {
        out.extend_from_slice(&v.to_le_bytes());
    }
    out
}

fn d_text(s: &str) -> Vec<u8> {
    let mut bytes = s.as_bytes().to_vec();
    bytes.push(0);
    while bytes.len() % 4 != 0 {
        bytes.push(0);
    }
    let mut out = d_words(&[(bytes.len() / 4) as u32]);
    out.extend_from_slice(&bytes);
    out
}

fn d_function(ident: u32, name: &str, file: &str) -> Vec<u8> {
    let mut body = d_words(&[ident, 0x11, 0x22]);
    body.extend(d_text(name));
    body.extend(d_words(&[0]));
    body.extend(d_text(file));
    body.extend(d_words(&[1, 1, 9, 2]));
    let mut out = d_words(&[0x0100_0000, (body.len() / 4) as u32]);
    out.extend(body);
    out
}

fn d_arcs(src: u32, arcs: &[(u32, u32)]) -> Vec<u8> {
    let mut out = d_words(&[0x0143_0000, 4 * (2 * arcs.len() as u32 + 1), src]);
    for (dst, flags) in arcs {
        out.extend(d_words(&[*dst, *flags]));
    }
    out
}

// version 120, checksum 0x5151
fn d_note_header() -> Vec<u8> {
    let mut out = d_words(&[0x6763_6e6f]);
    out.extend_from_slice(b"*02B");
    out.extend(d_words(&[0xabcd, 0x5151]));
    out.extend(d_text("/work"));
    out.extend(d_words(&[0]));
    out
}

fn d_chain_notes() -> Gcno {
    let mut note = d_note_header();
    note.extend(d_function(7, "main", "a.c"));
    note.extend(d_words(&[0x0141_0000, 1, 3]));
    note.extend(d_arcs(0, &[(1, 0)]));
    note.extend(d_arcs(1, &[(2, 0)]));
    Gcno::from_slice(&note).unwrap()
}

fn d_data_header(version: &[u8; 4], checksum: u32) -> Vec<u8> {
    let mut out = d_words(&[0x6763_6461]);
    out.extend_from_slice(version);
    out.extend(d_words(&[checksum]));
    out
}

fn d_counts(counts: &[u64]) -> Vec<u8> {
    let mut out = d_words(&[0x01a1_0000, 2 * counts.len() as u32]);
    for c in counts {
        out.extend(d_words(&[*c as u32, (*c >> 32) as u32]));
    }
    out
}

fn d_chain_data(counts: &[u64]) -> Vec<u8> {
    let mut data = d_data_header(b"*02B", 0x5151);
    data.extend(d_words(&[0x0100_0000, 3, 7, 0x11, 0x22]));
    data.extend(d_counts(counts));
    data
}

fn d_blocks_of(builder: FileCovBuilder, file: &str, name: &str) -> (Vec<u64>, usize, usize) {
    let coverage = builder.build().unwrap();
    let f = &coverage.files[file].fns[name];
    (f.blocks.iter().map(|b| b.executions).collect(), f.executed_blocks, f.total_blocks)
}

#[test]
fn chain_with_counters_is_covered() {
    let mut builder = FileCovBuilder::new(d_chain_notes());
    assert_eq!(builder.add_gcda(&d_chain_data(&[7, 7])), Ok(()));
    let coverage = builder.build().unwrap();
    assert_eq!(coverage.cwd.as_deref(), Some("/work"));
    assert_eq!(coverage.files.len(), 1);
    let f = &coverage.files["a.c"].fns["main"];
    let counts: Vec<u64> = f.blocks.iter().map(|b| b.executions).collect();
    // The exit block has no outgoing edge off the tree, and the closing edge gets no count.
    assert_eq!(counts, vec![7, 7, 0]);
    assert_eq!(f.executed_blocks, 2);
    assert_eq!(f.total_blocks, 3);
    assert_eq!((f.start_line, f.start_col, f.end_line, f.end_col), (1, Some(1), Some(9), Some(2)));
}

#[test]
fn chain_without_data_is_uncovered() {
    let builder = FileCovBuilder::new(d_chain_notes());
    assert_eq!(d_blocks_of(builder, "a.c", "main"), (vec![0, 0, 0], 0, 3));
}

#[test]
fn data_of_another_version_is_refused() {
    let mut builder = FileCovBuilder::new(d_chain_notes());
    let mut data = d_data_header(b"*31B", 0x5151);
    data.extend(d_words(&[0x0100_0000, 3, 7, 0x11, 0x22]));
    data.extend(d_counts(&[7, 7]));
    assert_eq!(builder.add_gcda(&data), Err(Error::VersionMismatch));
    assert_eq!(d_blocks_of(builder.clone(), "a.c", "main"), (vec![0, 0, 0], 0, 3));
    // the session is still usable
    assert_eq!(builder.add_gcda(&d_chain_data(&[1, 2])), Ok(()));
    assert_eq!(d_blocks_of(builder, "a.c", "main"), (vec![1, 2, 0], 2, 3));
}

#[test]
fn data_of_another_build_is_refused() {
    let mut builder = FileCovBuilder::new(d_chain_notes());
    let mut data = d_data_header(b"*02B", 0x5152);
    data.extend(d_counts(&[7, 7]));
    assert_eq!(builder.add_gcda(&data), Err(Error::Checksum));
    let mut notes = d_data_header(b"*02B", 0x5151);
    notes[..4].copy_from_slice(&0x6763_6e6fu32.to_le_bytes());
    assert!(matches!(builder.add_gcda(&notes), Err(Error::Value(_))));
    assert_eq!(builder.add_gcda(&[1, 2]), Err(Error::InsufficientBytes));
    assert_eq!(d_blocks_of(builder, "a.c", "main"), (vec![0, 0, 0], 0, 3));
}

#[test]
fn counters_of_several_files_add_up() {
    let mut builder = FileCovBuilder::new(d_chain_notes());
    builder.add_gcda(&d_chain_data(&[7, 5])).unwrap();
    builder.add_gcda(&d_chain_data(&[1, 0x1_0000_0000])).unwrap();
    assert_eq!(d_blocks_of(builder, "a.c", "main"), (vec![8, 0x1_0000_0005, 0], 2, 3));
}

#[test]
fn full_counters_stay_full() {
    let mut builder = FileCovBuilder::new(d_chain_notes());
    builder.add_gcda(&d_chain_data(&[u64::MAX - 1, 1])).unwrap();
    builder.add_gcda(&d_chain_data(&[2, 1])).unwrap();
    assert_eq!(d_blocks_of(builder, "a.c", "main"), (vec![u64::MAX, 2, 0], 2, 3));
}

#[test]
fn function_record_of_data_is_checked() {
    let mut builder = FileCovBuilder::new(d_chain_notes());
    let mut data = d_data_header(b"*02B", 0x5151);
    data.extend(d_words(&[0x0100_0000, 2, 7, 0x11]));
    assert_eq!(builder.add_gcda(&data), Err(Error::Length));
    let mut data = d_data_header(b"*02B", 0x5151);
    data.extend(d_words(&[0x0100_0000, 3, 8, 0x11, 0x22]));
    assert!(matches!(builder.add_gcda(&data), Err(Error::Value(_))));
    let mut data = d_data_header(b"*02B", 0x5151);
    data.extend(d_words(&[0x0100_0000, 3, 7, 0x12, 0x22]));
    assert_eq!(builder.add_gcda(&data), Err(Error::Checksum));
    let mut data = d_data_header(b"*02B", 0x5151);
    data.extend(d_words(&[0x0100_0000, 3, 7, 0x11, 0x23]));
    assert_eq!(builder.add_gcda(&data), Err(Error::Checksum));
    let mut data = d_data_header(b"*02B", 0x5151);
    data.extend(d_words(&[0x0100_0000, 0]));
    data.extend(d_words(&[0x0100_0000, 3, 7, 0x11]));
    assert_eq!(builder.add_gcda(&data), Err(Error::InsufficientBytes));
}

#[test]
fn counters_must_match_the_edges() {
    let mut builder = FileCovBuilder::new(d_chain_notes());
    let mut data = d_data_header(b"*02B", 0x5151);
    data.extend(d_words(&[0x0100_0000, 3, 7, 0x11, 0x22]));
    data.extend(d_counts(&[7]));
    assert!(matches!(builder.add_gcda(&data), Err(Error::Value(_))));
    assert_eq!(d_blocks_of(builder, "a.c", "main"), (vec![0, 0, 0], 0, 3));
}

#[test]
fn counters_before_any_function_are_passed_over() {
    let mut builder = FileCovBuilder::new(d_chain_notes());
    let mut data = d_data_header(b"*02B", 0x5151);
    data.extend(d_words(&[0x01a1_0000, 0]));
    assert_eq!(builder.add_gcda(&data), Ok(()));
    assert_eq!(d_blocks_of(builder, "a.c", "main"), (vec![0, 0, 0], 0, 3));
}

#[test]
fn counters_read_before_a_failure_stay() {
    let mut builder = FileCovBuilder::new(d_chain_notes());
    let mut data = d_chain_data(&[7, 9]);
    data.truncate(data.len() - 4);
    assert_eq!(builder.add_gcda(&data), Err(Error::InsufficientBytes));
    assert_eq!(d_blocks_of(builder, "a.c", "main"), (vec![7, 0, 0], 1, 3));
}

#[test]
fn data_ends_at_tag_zero() {
    let mut builder = FileCovBuilder::new(d_chain_notes());
    let mut data = d_chain_data(&[7, 7]);
    data.extend(d_words(&[0]));
    assert_eq!(builder.add_gcda(&data), Ok(()));
    data.extend(d_words(&[1]));
    assert_eq!(builder.add_gcda(&data), Err(Error::TrailingBytes));
    assert_eq!(d_blocks_of(builder, "a.c", "main"), (vec![14, 14, 0], 2, 3));
}

#[test]
fn summaries_and_unknown_records_are_passed_over() {
    let mut builder = FileCovBuilder::new(d_chain_notes());
    let mut data = d_data_header(b"*02B", 0x5151);
    data.extend(d_words(&[0xa100_0000, 2, 5, 6]));
    data.extend(d_words(&[0xa100_0000, 0]));
    data.extend(d_words(&[0xa300_0000, 4, 1, 2, 3, 4]));
    data.extend(d_words(&[0xbeef_0000, 1, 99]));
    data.extend(d_words(&[0x0100_0000, 3, 7, 0x11, 0x22]));
    data.extend(d_counts(&[3, 4]));
    assert_eq!(builder.add_gcda(&data), Ok(()));
    assert_eq!(d_blocks_of(builder, "a.c", "main"), (vec![3, 4, 0], 2, 3));
    let mut builder = FileCovBuilder::new(d_chain_notes());
    let mut data = d_data_header(b"*02B", 0x5151);
    data.extend(d_words(&[0xa300_0000, 2, 1, 2]));
    assert_eq!(builder.add_gcda(&data), Err(Error::InsufficientBytes));
    let mut data = d_data_header(b"*02B", 0x5151);
    data.extend(d_words(&[0xa100_0000, 1, 1]));
    assert_eq!(builder.add_gcda(&data), Err(Error::InsufficientBytes));
    let mut data = d_data_header(b"*02B", 0x5151);
    data.extend(d_words(&[0xa100_0000, 3, 1, 2]));
    assert_eq!(builder.add_gcda(&data), Err(Error::InsufficientBytes));
}

fn d_branching_notes() -> Gcno {
    let mut note = d_note_header();
    note.extend(d_function(7, "main", "a.c"));
    note.extend(d_words(&[0x0141_0000, 1, 4]));
    note.extend(d_arcs(0, &[(2, 1)]));
    note.extend(d_arcs(2, &[(3, 0), (1, 0)]));
    note.extend(d_arcs(3, &[(1, 1)]));
    Gcno::from_slice(&note).unwrap()
}

#[test]
fn edges_on_the_tree_have_no_counter_in_the_data() {
    let gcno = d_branching_notes();
    assert_eq!(gcno.functions[0].real_edge_cnt, 2);
    let mut builder = FileCovBuilder::new(gcno);
    let mut data = d_data_header(b"*02B", 0x5151);
    data.extend(d_words(&[0x0100_0000, 3, 7, 0x11, 0x22]));
    data.extend(d_counts(&[5, 2]));
    assert_eq!(builder.add_gcda(&data), Ok(()));
    // Block 2 has both counted edges; propagation finds 0 for the edges on the tree.
    assert_eq!(d_blocks_of(builder, "a.c", "main"), (vec![0, 0, 7, 0], 1, 4));
}

#[test]
fn cycle_of_counted_edges_gives_every_block_its_count() {
    let mut note = d_note_header();
    note.extend(d_function(7, "main", "a.c"));
    note.extend(d_words(&[0x0141_0000, 1, 3]));
    note.extend(d_arcs(0, &[(1, 0)]));
    note.extend(d_arcs(1, &[(2, 0)]));
    note.extend(d_arcs(2, &[(0, 0)]));
    let mut builder = FileCovBuilder::new(Gcno::from_slice(&note).unwrap());
    let mut data = d_data_header(b"*02B", 0x5151);
    data.extend(d_words(&[0x0100_0000, 3, 7, 0x11, 0x22]));
    data.extend(d_counts(&[3, 3, 3]));
    builder.add_gcda(&data).unwrap();
    assert_eq!(d_blocks_of(builder, "a.c", "main"), (vec![3, 3, 3], 3, 3));
}

#[test]
fn no_function_has_more_executed_blocks_than_blocks() {
    let mut builder = FileCovBuilder::new(d_branching_notes());
    let mut data = d_data_header(b"*02B", 0x5151);
    data.extend(d_words(&[0x0100_0000, 3, 7, 0x11, 0x22]));
    data.extend(d_counts(&[u64::MAX, 1]));
    builder.add_gcda(&data).unwrap();
    let coverage = builder.build().unwrap();
    for file in coverage.files.values() {
        for f in file.fns.values() {
            assert!(f.executed_blocks <= f.total_blocks);
            assert_eq!(f.total_blocks, f.blocks.len());
            assert_eq!(f.executed_blocks, f.blocks.iter().filter(|b| b.executions > 0).count());
        }
    }
}

#[test]
fn same_name_twice_in_a_file_is_refused() {
    let mut note = d_note_header();
    note.extend(d_function(7, "main", "a.c"));
    note.extend(d_function(8, "main", "a.c"));
    let builder = FileCovBuilder::new(Gcno::from_slice(&note).unwrap());
    assert!(matches!(builder.build(), Err(Error::Value(_))));
    let mut note = d_note_header();
    note.extend(d_function(7, "main", "a.c"));
    note.extend(d_function(8, "main", "b.c"));
    note.extend(d_function(9, "other", "a.c"));
    let coverage = FileCovBuilder::new(Gcno::from_slice(&note).unwrap()).build().unwrap();
    assert_eq!(coverage.files.len(), 2);
    assert_eq!(coverage.files["a.c"].fns.len(), 2);
    assert_eq!(coverage.files["b.c"].fns.len(), 1);
}

fn d_hand_made(counts: [u64; 2], first_edge: u64) -> Gcno {
    let mut block0 = GcnoBlock::new(0);
    block0.src = vec![0];
    block0.dst = vec![0];
    block0.lines = vec![10, 11, 10];
    block0.counter = counts[0];
    let mut block1 = GcnoBlock::new(1);
    block1.lines = vec![11, 12];
    block1.counter = counts[1];
    let mut lines = HashMap::new();
    lines.insert(10, 99);
    lines.insert(20, 5);
    let function = GcnoFunction {
        ident: 1,
        line_chksum: 0,
        cfg_chksum: None,
        name: "f".to_string(),
        artificial: None,
        file_name: "a.c".to_string(),
        start_line: 1,
        start_col: None,
        end_line: None,
        end_col: None,
        lines,
        blocks: vec![block0, block1],
        edges: vec![GcnoEdge { src: 0, dst: 1, flags: 0, counter: first_edge, cycles: 0 }],
        real_edge_cnt: 1,
        executed: false,
    };
    let mut ident_fn_idx = fxhash::FxHashMap::default();
    ident_fn_idx.insert(1, 0);
    Gcno { version: 120, chksum: 0, cwd: None, ident_fn_idx, functions: vec![function] }
}

#[test]
fn lines_of_an_executed_function_sum_their_blocks() {
    let coverage = FileCovBuilder::new(d_hand_made([3, 4], 1)).build().unwrap();
    let f = &coverage.files["a.c"].fns["f"];
    let mut lines: Vec<(u32, u64)> = f.lines.iter().map(|l| (l.lineno, l.exec_count)).collect();
    lines.sort();
    assert_eq!(lines, vec![(10, 6), (11, 7), (12, 4), (20, 5)]);
}

#[test]
fn lines_of_an_unexecuted_function_are_recorded_at_zero() {
    let coverage = FileCovBuilder::new(d_hand_made([3, 4], 0)).build().unwrap();
    let f = &coverage.files["a.c"].fns["f"];
    let mut lines: Vec<(u32, u64)> = f.lines.iter().map(|l| (l.lineno, l.exec_count)).collect();
    lines.sort();
    assert_eq!(lines, vec![(10, 99), (11, 0), (12, 0), (20, 5)]);
}

#[test]
fn interior_blocks_are_balanced() {
    let gcno = d_branching_notes();
    let lists: Vec<(Vec<usize>, Vec<usize>)> =
        gcno.functions[0].blocks.iter().map(|b| (b.src.clone(), b.dst.clone())).collect();
    // blocks 2 and 3 are neither entry nor exit: both lists hold the same edges
    for b in [2usize, 3] {
        let mut incoming = lists[b].0.clone();
        let mut outgoing = lists[b].1.clone();
        incoming.sort();
        outgoing.sort();
        assert_eq!(incoming, outgoing);
    }
}
