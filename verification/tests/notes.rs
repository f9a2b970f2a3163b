use quikcov::{Error, Gcno};

fn n_words(values: &[u32]) -> Vec<u8> {
    let mut out = Vec::new();
    for v in values {
        out.extend_from_slice(&v.to_le_bytes());
    }
    out
}

fn n_text(s: &str, version: u32) -> Vec<u8> {
    let mut bytes = s.as_bytes().to_vec();
    bytes.push(0);
    while bytes.len() % 4 != 0 {
        bytes.push(0);
    }
    let length = if version < 130 { bytes.len() / 4 } else { bytes.len() };
    let mut out = n_words(&[length as u32]);
    out.extend_from_slice(&bytes);
    out
}

fn n_version_tag(version: u32) -> [u8; 4] {
    if version >= 100 {
        [b'*', b'0' + (version % 10) as u8, b'0' + (version / 10 % 10) as u8, b'A' + (version / 100) as u8]
    } else {
        [b'*', b'0' + (version % 10) as u8, b'0', b'0' + (version / 10) as u8]
    }
}

fn n_header(version: u32, checksum: u32) -> Vec<u8> {
    let mut out = n_words(&[0x6763_6e6f]);
    out.extend_from_slice(&n_version_tag(version));
    if version >= 113 {
        out.extend(n_words(&[0xabcd]));
    }
    out.extend(n_words(&[checksum]));
    if version >= 90 {
        out.extend(n_text("/work", version));
    }
    if version >= 80 {
        out.extend(n_words(&[0]));
    }
    out
}

fn n_function(version: u32, ident: u32, name: &str, file: &str, start: u32, end: u32) -> Vec<u8> {
    let mut body = n_words(&[ident, 0x11]);
    if version >= 47 {
        body.extend(n_words(&[0x22]));
    }
    body.extend(n_text(name, version));
    if version >= 80 {
        body.extend(n_words(&[0]));
    }
    body.extend(n_text(file, version));
    body.extend(n_words(&[start]));
    if version >= 80 {
        body.extend(n_words(&[1, end, 2]));
    }
    let length = if version < 130 { body.len() / 4 } else { body.len() };
    let mut out = n_words(&[0x0100_0000, length as u32]);
    out.extend(body);
    out
}

fn n_blocks(version: u32, count: u32) -> Vec<u8> {
    if version >= 80 {
        n_words(&[0x0141_0000, 1, count])
    } else {
        let mut out = n_words(&[0x0141_0000, count]);
        for _ in 0..count {
            out.extend(n_words(&[0]));
        }
        out
    }
}

fn n_arcs(src: u32, arcs: &[(u32, u32)]) -> Vec<u8> {
    let length = 4 * (2 * arcs.len() as u32 + 1);
    let mut out = n_words(&[0x0143_0000, length, src]);
    for (dst, flags) in arcs {
        out.extend(n_words(&[*dst, *flags]));
    }
    out
}

fn n_chain(version: u32) -> Vec<u8> {
    let mut note = n_header(version, 0x5151);
    note.extend(n_function(version, 7, "main", "a.c", 1, 9));
    note.extend(n_blocks(version, 3));
    note.extend(n_arcs(0, &[(1, 0)]));
    note.extend(n_arcs(1, &[(2, 0)]));
    note
}

#[test]
fn decodes_a_chain_of_three_blocks() {
    let gcno = Gcno::from_slice(&n_chain(120)).unwrap();
    assert_eq!(gcno.version, 120);
    assert_eq!(gcno.chksum, 0x5151);
    assert_eq!(gcno.cwd.as_deref(), Some("/work"));
    assert_eq!(gcno.functions.len(), 1);
    let f = &gcno.functions[0];
    assert_eq!(f.ident, 7);
    assert_eq!(f.line_chksum, 0x11);
    assert_eq!(f.cfg_chksum, Some(0x22));
    assert_eq!(f.name, "main");
    assert_eq!(f.artificial, Some(0));
    assert_eq!(f.file_name, "a.c");
    assert_eq!((f.start_line, f.start_col, f.end_line, f.end_col), (1, Some(1), Some(9), Some(2)));
    assert_eq!(f.blocks.len(), 3);
    assert_eq!(f.blocks[2].block_id, 2);
    assert_eq!(f.edges.len(), 2);
    assert_eq!(f.real_edge_cnt, 2);
    assert_eq!((f.edges[0].src, f.edges[0].dst, f.edges[0].counter), (0, 1, 0));
    assert_eq!((f.edges[1].src, f.edges[1].dst), (1, 2));
    assert_eq!(f.blocks[0].dst, vec![0]);
    assert_eq!(f.blocks[0].src, vec![0]);
    assert_eq!(f.blocks[1].dst, vec![1]);
    assert_eq!(f.blocks[1].src, vec![1]);
    assert!(f.blocks[2].dst.is_empty());
    assert!(!f.executed);
    assert_eq!(gcno.ident_fn_idx.get(&7), Some(&0));
}

#[test]
fn old_versions_have_fewer_fields() {
    let gcno = Gcno::from_slice(&n_chain(47)).unwrap();
    assert_eq!(gcno.version, 47);
    assert_eq!(gcno.cwd, None);
    let f = &gcno.functions[0];
    assert_eq!(f.cfg_chksum, Some(0x22));
    assert_eq!((f.start_col, f.end_line, f.end_col, f.artificial), (None, None, None, None));
    assert_eq!(f.blocks.len(), 3);
    assert_eq!(f.edges.len(), 2);
    let gcno = Gcno::from_slice(&n_chain(46)).unwrap();
    assert_eq!(gcno.functions[0].cfg_chksum, None);
}

#[test]
fn lengths_count_bytes_from_version_130() {
    let gcno = Gcno::from_slice(&n_chain(131)).unwrap();
    assert_eq!(gcno.version, 131);
    assert_eq!(gcno.functions[0].name, "main");
    assert_eq!(gcno.functions[0].edges.len(), 2);
}

#[test]
fn unknown_record_is_skipped_by_its_length() {
    for version in [120u32, 131] {
        let mut note = n_header(version, 1);
        let length = if version < 130 { 2 } else { 8 };
        note.extend(n_words(&[0xdead_0000, length]));
        note.extend_from_slice(&[0xaau8; 8]);
        note.extend(n_function(version, 3, "f", "b.c", 4, 5));
        let gcno = Gcno::from_slice(&note).unwrap();
        assert_eq!(gcno.functions.len(), 1);
        assert_eq!(gcno.functions[0].ident, 3);
    }
    let mut note = n_header(120, 1);
    note.extend(n_words(&[0xdead_0000, 3]));
    note.extend_from_slice(&[0xaau8; 8]);
    assert_eq!(Gcno::from_slice(&note).err(), Some(Error::InsufficientBytes));
}

#[test]
fn tag_zero_must_end_the_file() {
    let mut note = n_chain(120);
    note.extend(n_words(&[0]));
    assert!(Gcno::from_slice(&note).is_ok());
    note.extend(n_words(&[5]));
    assert_eq!(Gcno::from_slice(&note).err(), Some(Error::TrailingBytes));
}

#[test]
fn records_before_the_first_function_are_skipped() {
    let mut note = n_words(&[0x6763_6e6f]);
    note.extend_from_slice(b"*02B");
    note.extend(n_words(&[0, 0, 0, 0, 0x0141_0000, 1, 3]));
    let gcno = Gcno::from_slice(&note).unwrap();
    assert_eq!(gcno.version, 120);
    assert!(gcno.functions.is_empty());
    for version in [120u32, 131] {
        let mut note = n_header(version, 1);
        let mut blocks = n_blocks(version, 3);
        if version >= 130 {
            blocks[4..8].copy_from_slice(&4u32.to_le_bytes());
        }
        note.extend(blocks);
        let mut arcs = n_arcs(0, &[(1, 0)]);
        let units: u32 = if version < 130 { 3 } else { 12 };
        arcs[4..8].copy_from_slice(&units.to_le_bytes());
        note.extend(arcs);
        note.extend(n_words(&[0x0145_0000, 0]));
        note.extend(n_function(version, 3, "f", "b.c", 4, 5));
        let gcno = Gcno::from_slice(&note).unwrap();
        assert_eq!(gcno.functions.len(), 1);
        assert!(gcno.functions[0].blocks.is_empty());
        assert!(gcno.functions[0].edges.is_empty());
    }
    let mut cut = n_header(120, 1);
    cut.extend(n_words(&[0x0143_0000, 2, 0]));
    assert_eq!(Gcno::from_slice(&cut).err(), Some(Error::InsufficientBytes));
}

#[test]
fn a_data_file_is_no_note_file() {
    let mut note = n_chain(120);
    note[..4].copy_from_slice(&0x6763_6461u32.to_le_bytes());
    assert!(matches!(Gcno::from_slice(&note), Err(Error::Value(_))));
    note[..4].copy_from_slice(b"gcno");
    assert_eq!(Gcno::from_slice(&note).err(), Some(Error::Endianness));
    assert_eq!(Gcno::from_slice(&[]).err(), Some(Error::InsufficientBytes));
}

#[test]
fn function_record_must_fill_its_length() {
    let mut note = n_header(120, 1);
    let mut record = n_function(120, 3, "f", "b.c", 4, 5);
    record[4] += 1;
    record.extend(n_words(&[0]));
    note.extend(record);
    assert_eq!(Gcno::from_slice(&note).err(), Some(Error::TrailingBytes));
    let mut note = n_header(120, 1);
    let mut record = n_function(120, 3, "f", "b.c", 4, 5);
    record[4] += 1;
    note.extend(record);
    assert_eq!(Gcno::from_slice(&note).err(), Some(Error::InsufficientBytes));
}

#[test]
fn arcs_must_join_declared_blocks() {
    let mut note = n_header(120, 1);
    note.extend(n_function(120, 3, "f", "b.c", 4, 5));
    note.extend(n_blocks(120, 2));
    let mut bad_source = note.clone();
    bad_source.extend(n_arcs(2, &[(1, 0)]));
    assert!(matches!(Gcno::from_slice(&bad_source), Err(Error::Value(_))));
    let mut bad_target = note.clone();
    bad_target.extend(n_arcs(0, &[(2, 0)]));
    assert!(matches!(Gcno::from_slice(&bad_target), Err(Error::Value(_))));
    let mut short = note.clone();
    short.extend(n_words(&[0x0143_0000, 3, 0]));
    assert_eq!(Gcno::from_slice(&short).err(), Some(Error::InsufficientBytes));
    let mut cut = note.clone();
    cut.extend(n_words(&[0x0143_0000, 12, 0, 1]));
    assert_eq!(Gcno::from_slice(&cut).err(), Some(Error::InsufficientBytes));
}

#[test]
fn outgoing_edges_are_sorted_by_destination() {
    let mut note = n_header(120, 1);
    note.extend(n_function(120, 3, "f", "b.c", 4, 5));
    note.extend(n_blocks(120, 4));
    note.extend(n_arcs(0, &[(3, 0), (1, 1), (2, 0), (1, 0)]));
    let gcno = Gcno::from_slice(&note).unwrap();
    let f = &gcno.functions[0];
    assert_eq!(f.blocks[0].dst, vec![1, 3, 2, 0]);
    assert_eq!(f.blocks[0].src, vec![0, 1, 2, 3]);
    assert_eq!(f.real_edge_cnt, 3);
    let targets: Vec<usize> = f.blocks[0].dst.iter().map(|e| f.edges[*e].dst).collect();
    assert_eq!(targets, vec![1, 1, 2, 3]);
}

#[test]
fn every_edge_is_listed_once_each_way() {
    let mut note = n_header(120, 1);
    note.extend(n_function(120, 3, "f", "b.c", 4, 5));
    note.extend(n_blocks(120, 4));
    note.extend(n_arcs(0, &[(3, 0), (1, 1)]));
    note.extend(n_arcs(2, &[(0, 0), (2, 1), (1, 0)]));
    note.extend(n_arcs(0, &[(2, 0)]));
    let gcno = Gcno::from_slice(&note).unwrap();
    let f = &gcno.functions[0];
    for (e, edge) in f.edges.iter().enumerate() {
        assert!(edge.src < f.blocks.len() && edge.dst < f.blocks.len());
        let outgoing: usize = f.blocks.iter().map(|b| b.dst.iter().filter(|x| **x == e).count()).sum();
        let incoming: usize = f.blocks.iter().map(|b| b.src.iter().filter(|x| **x == e).count()).sum();
        assert_eq!((outgoing, incoming), (1, 1));
        assert!(f.blocks[edge.src].dst.contains(&e));
    }
    for block in &f.blocks {
        let targets: Vec<usize> = block.dst.iter().map(|e| f.edges[*e].dst).collect();
        let mut sorted = targets.clone();
        sorted.sort();
        assert_eq!(targets, sorted);
    }
}

fn n_lines(version: u32, block: u32, entries: &[(Option<&str>, u32)]) -> Vec<u8> {
    let mut out = n_words(&[0x0145_0000, 0, block]);
    for (file, line) in entries {
        match file {
            Some(name) => {
                out.extend(n_words(&[0]));
                out.extend(n_text(name, version));
            }
            None => out.extend(n_words(&[*line])),
        }
    }
    out.extend(n_words(&[0, 0]));
    out
}

#[test]
fn lines_of_the_own_file_within_the_extent_count() {
    let mut note = n_header(120, 1);
    note.extend(n_function(120, 3, "f", "b.c", 4, 8));
    note.extend(n_blocks(120, 2));
    note.extend(n_lines(
        120,
        1,
        &[(None, 5), (Some("b.c"), 0), (None, 3), (None, 4), (None, 8), (None, 9), (Some("x.h"), 0), (None, 6), (Some("b.c"), 0), (None, 7)],
    ));
    note.extend(n_function(120, 4, "g", "b.c", 1, 2));
    let gcno = Gcno::from_slice(&note).unwrap();
    let f = &gcno.functions[0];
    let mut lines: Vec<(u32, u64)> = f.lines.iter().map(|(l, c)| (*l, *c)).collect();
    lines.sort();
    assert_eq!(lines, vec![(4, 0), (7, 0), (8, 0)]);
    assert_eq!(f.blocks[1].line_max, 8);
    assert_eq!(f.blocks[0].line_max, 0);
    assert!(f.blocks[1].lines.is_empty());
    assert_eq!(gcno.functions.len(), 2);
}

#[test]
fn lines_need_a_declared_block() {
    let mut note = n_header(120, 1);
    note.extend(n_function(120, 3, "f", "b.c", 4, 8));
    note.extend(n_blocks(120, 2));
    note.extend(n_lines(120, 2, &[]));
    assert!(matches!(Gcno::from_slice(&note), Err(Error::Value(_))));
}

#[test]
fn later_function_takes_over_a_repeated_identifier() {
    let mut note = n_header(120, 1);
    note.extend(n_function(120, 3, "f", "b.c", 4, 8));
    note.extend(n_function(120, 3, "g", "b.c", 9, 12));
    let gcno = Gcno::from_slice(&note).unwrap();
    assert_eq!(gcno.ident_fn_idx.get(&3), Some(&1));
    assert_eq!(gcno.functions.len(), 2);
}
