use gridpath::{ser_to_cell, ser_to_string, CellType};

fn labels(rows: &[&[&str]]) -> Vec<Vec<String>> {
    rows.iter().map(|r| r.iter().map(|s| s.to_string()).collect()).collect()
}

#[test]
fn labels_become_cells() {
    let arr = labels(&[&["start", "blank"], &["block", "destination"]]);
    assert_eq!(
        ser_to_cell(&arr),
        vec![
            vec![CellType::Start, CellType::Blank],
            vec![CellType::Block, CellType::Destination]
        ]
    );
}

#[test]
fn unknown_labels_are_blocks() {
    let arr = labels(&[&["wall", "", "Start", "path-1"]]);
    assert_eq!(ser_to_cell(&arr), vec![vec![CellType::Block; 4]]);
}

#[test]
fn cells_become_labels() {
    let cells = vec![vec![
        CellType::Start,
        CellType::Destination,
        CellType::Blank,
        CellType::Block,
        CellType::Visited(1),
        CellType::Visited(12),
        CellType::Visited(4_000_000_000),
    ]];
    assert_eq!(
        ser_to_string(&cells),
        labels(&[&["start", "destination", "blank", "block", "path-1", "path-12", "path-4000000000"]])
    );
}

#[test]
fn labels_round_trip() {
    let arr = labels(&[
        &["start", "blank", "blank", "block"],
        &["block", "blank", "blank", "block"],
        &["block", "block", "blank", "blank"],
        &["block", "block", "destination", "blank"],
    ]);
    assert_eq!(ser_to_string(&ser_to_cell(&arr)), arr);
}

#[test]
fn empty_grid_round_trip() {
    let arr: Vec<Vec<String>> = vec![];
    assert_eq!(ser_to_cell(&arr), Vec::<Vec<CellType>>::new());
    assert_eq!(ser_to_string(&ser_to_cell(&arr)), arr);
}
