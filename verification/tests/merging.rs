use quikcov::{BlockCoverage, CoverageFile, CoverageOne, FileCoverage, FnCoverage, LineCoverage, ProgCoverage};

fn m_function(blocks: &[u64], lines: &[(u32, u64)]) -> FnCoverage {
    FnCoverage {
        start_line: 1,
        start_col: None,
        end_line: None,
        end_col: None,
        executed_blocks: blocks.iter().filter(|b| **b > 0).count(),
        total_blocks: blocks.len(),
        lines: lines.iter().map(|(lineno, exec_count)| LineCoverage { lineno: *lineno, exec_count: *exec_count }).collect(),
        blocks: blocks.iter().map(|b| BlockCoverage { executions: *b }).collect(),
    }
}

fn m_program(cwd: Option<&str>, functions: Vec<(&str, &str, FnCoverage)>) -> ProgCoverage {
    let mut program = ProgCoverage { cwd: cwd.map(|s| s.to_string()), files: Default::default() };
    for (file, name, function) in functions {
        program
            .files
            .entry(file.to_string())
            .or_insert(FileCoverage { fns: Default::default() })
            .fns
            .insert(name.to_string(), function);
    }
    program
}

fn m_flat(program: &ProgCoverage) -> Vec<(String, String, Vec<u64>, usize, Vec<(u32, u64)>)> {
    let mut out = Vec::new();
    for (file, coverage) in &program.files {
        for (name, f) in &coverage.fns {
            out.push((
                file.clone(),
                name.clone(),
                f.blocks.iter().map(|b| b.executions).collect(),
                f.executed_blocks,
                f.lines.iter().map(|l| (l.lineno, l.exec_count)).collect(),
            ));
        }
    }
    out.sort();
    out
}

#[test]
fn merge_takes_the_larger_count_place_by_place() {
    let mut x = m_program(Some("/w"), vec![("a.c", "f", m_function(&[5, 0], &[(1, 5), (2, 0)]))]);
    let y = m_program(Some("/w"), vec![("a.c", "f", m_function(&[2, 4], &[(1, 2), (2, 4)]))]);
    assert!(x.merge(y).is_ok());
    assert_eq!(
        m_flat(&x),
        vec![("a.c".to_string(), "f".to_string(), vec![5, 4], 2, vec![(1, 5), (2, 4)])]
    );
    assert_eq!(CoverageOne::new(x).covered_blocks, 2);
}

#[test]
fn merge_with_itself_changes_nothing() {
    let make = || {
        m_program(
            None,
            vec![
                ("a.c", "f", m_function(&[5, 0, 3], &[(1, 5), (2, 0)])),
                ("a.c", "g", m_function(&[0], &[])),
                ("b.c", "f", m_function(&[1, 1], &[(7, 1)])),
            ],
        )
    };
    let mut c = make();
    assert!(c.merge(make()).is_ok());
    assert_eq!(m_flat(&c), m_flat(&make()));
}

#[test]
fn merge_covers_the_same_either_way() {
    let a = || {
        m_program(
            None,
            vec![
                ("a.c", "f", m_function(&[5, 0, 0], &[(1, 5)])),
                ("a.c", "g", m_function(&[0, 1], &[])),
            ],
        )
    };
    let b = || {
        m_program(
            None,
            vec![
                ("a.c", "f", m_function(&[0, 2, 0], &[(1, 1)])),
                ("b.c", "h", m_function(&[9], &[])),
            ],
        )
    };
    let mut ab = a();
    ab.merge(b()).unwrap();
    let mut ba = b();
    ba.merge(a()).unwrap();
    let ab = CoverageOne::new(ab);
    let ba = CoverageOne::new(ba);
    assert_eq!(ab.covered_blocks, 4);
    assert_eq!(ab.covered_blocks, ba.covered_blocks);
    assert_eq!(ab.total_blocks, ba.total_blocks);
}

#[test]
fn merge_keeps_the_left_function_where_sizes_differ() {
    let mut a = m_program(None, vec![("a.c", "f", m_function(&[1, 0, 0], &[(1, 1)]))]);
    let b = m_program(None, vec![("a.c", "f", m_function(&[0, 2, 2, 2], &[(1, 9)]))]);
    a.merge(b).unwrap();
    assert_eq!(m_flat(&a), vec![("a.c".to_string(), "f".to_string(), vec![1, 0, 0], 1, vec![(1, 1)])]);
    let mut a = m_program(None, vec![("a.c", "f", m_function(&[1, 0], &[(1, 1)]))]);
    let b = m_program(None, vec![("a.c", "f", m_function(&[0, 2], &[(1, 9), (2, 9)]))]);
    a.merge(b).unwrap();
    assert_eq!(m_flat(&a), vec![("a.c".to_string(), "f".to_string(), vec![1, 0], 1, vec![(1, 1)])]);
}

#[test]
fn merge_adds_new_files_and_functions() {
    let mut a = m_program(Some("/w"), vec![("a.c", "f", m_function(&[1], &[]))]);
    let b = m_program(
        None,
        vec![("a.c", "g", m_function(&[0, 2], &[])), ("b.c", "f", m_function(&[3], &[(4, 3)]))],
    );
    a.merge(b).unwrap();
    assert_eq!(a.cwd.as_deref(), Some("/w"));
    assert_eq!(
        m_flat(&a),
        vec![
            ("a.c".to_string(), "f".to_string(), vec![1], 1, vec![]),
            ("a.c".to_string(), "g".to_string(), vec![0, 2], 1, vec![]),
            ("b.c".to_string(), "f".to_string(), vec![3], 1, vec![(4, 3)]),
        ]
    );
}

#[test]
fn merge_refuses_another_working_directory() {
    let mut a = m_program(Some("/w"), vec![("a.c", "f", m_function(&[1], &[]))]);
    let b = m_program(Some("/v"), vec![("b.c", "g", m_function(&[2], &[]))]);
    let message = a.merge(b).unwrap_err();
    assert!(message.contains("/w") && message.contains("/v"));
    assert_eq!(m_flat(&a), vec![("a.c".to_string(), "f".to_string(), vec![1], 1, vec![])]);
    let c = m_program(None, vec![("b.c", "g", m_function(&[2], &[]))]);
    assert!(a.merge(c).is_ok());
    assert_eq!(a.files.len(), 2);
}

#[test]
fn function_merge_counts_executed_blocks_anew() {
    let mut f = m_function(&[0, 0, 7], &[(3, 0)]);
    f.merge(&m_function(&[0, 4, 1], &[(3, 8)]));
    assert_eq!(f.blocks.iter().map(|b| b.executions).collect::<Vec<_>>(), vec![0, 4, 7]);
    assert_eq!(f.executed_blocks, 2);
    assert_eq!(f.lines[0].exec_count, 8);
    assert_eq!(f.lines[0].lineno, 3);
}

#[test]
fn summary_adds_up_the_functions() {
    let program = m_program(
        None,
        vec![
            ("a.c", "f", m_function(&[5, 0, 3], &[])),
            ("a.c", "g", m_function(&[0], &[])),
            ("b.c", "f", m_function(&[1, 1], &[])),
        ],
    );
    let file = CoverageFile::of(&program.files["a.c"]);
    assert_eq!(file, CoverageFile { covered_blocks: 2, total_blocks: 4 });
    let one = CoverageOne::new(program);
    assert_eq!((one.covered_blocks, one.total_blocks), (4, 6));
    assert_eq!(one.files.len(), 2);
    assert_eq!(one.files["a.c"], CoverageFile { covered_blocks: 2, total_blocks: 4 });
    assert_eq!(one.files["b.c"], CoverageFile { covered_blocks: 2, total_blocks: 2 });
    let empty = CoverageOne::new(m_program(None, vec![]));
    assert_eq!((empty.covered_blocks, empty.total_blocks, empty.files.len()), (0, 0, 0));
}

#[test]
fn summary_reports_the_largest_number_where_a_sum_is_beyond() {
    let mut huge = m_function(&[1], &[]);
    huge.total_blocks = usize::MAX;
    let file = FileCoverage { fns: [("f".to_string(), huge), ("g".to_string(), m_function(&[1, 1], &[]))].into_iter().collect() };
    assert_eq!(CoverageFile::new(file), CoverageFile { covered_blocks: 3, total_blocks: usize::MAX });
}
