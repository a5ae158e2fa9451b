use git_vdb::input::{preflight, LineCheck, PreflightError};

#[test]
fn blank_lines_are_skipped_and_the_dimension_is_shared() {
    let lines = vec![
        LineCheck::Blank,
        LineCheck::Point { dimension: 3 },
        LineCheck::Blank,
        LineCheck::Point { dimension: 3 },
    ];
    assert_eq!(preflight(&lines), Ok(3));
}

#[test]
fn the_first_bad_line_is_reported() {
    let lines = vec![
        LineCheck::Point { dimension: 2 },
        LineCheck::Point { dimension: 4 },
        LineCheck::Unparsed,
    ];
    assert_eq!(preflight(&lines), Err(PreflightError::Dimension { line: 2, dimension: 4, expected: 2 }));
    let lines = vec![LineCheck::Blank, LineCheck::Unparsed, LineCheck::Point { dimension: 0 }];
    assert_eq!(preflight(&lines), Err(PreflightError::Unparsed { line: 2 }));
    let lines = vec![LineCheck::Point { dimension: 0 }, LineCheck::Unparsed];
    assert_eq!(preflight(&lines), Err(PreflightError::EmptyVector { line: 1 }));
}

#[test]
fn an_input_without_points_is_refused() {
    assert_eq!(preflight(&vec![]), Err(PreflightError::NoPoints));
    assert_eq!(preflight(&vec![LineCheck::Blank, LineCheck::Blank]), Err(PreflightError::NoPoints));
}
