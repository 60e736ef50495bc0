use rtsp_player::grid::{GridCell, GridView};
use rtsp_player::id::Id;
use rtsp_player::wall::{
    grid_columns, grid_slots, size_label, wall_columns, wall_rows, Slot, SlotBody,
};

fn id(n: u128) -> Id {
    Id::from_u128(n)
}

#[test]
fn a_cell_covers_its_span() {
    let mut cell = GridCell::new(1, 2, id(1));
    assert!(cell.covers(1, 2));
    assert!(!cell.covers(1, 3));
    cell.col_span = 2;
    cell.row_span = 0;
    assert!(cell.covers(1, 3));
    assert!(!cell.covers(2, 2));
    assert!(!cell.covers(0, 2));
}

#[test]
fn edges_past_the_last_number_are_known() {
    let mut cell = GridCell::new(1, 1, id(1));
    assert!(cell.can_cover(9, 9));
    cell.row_span = usize::MAX;
    assert!(!cell.can_cover(1, 1));
    assert!(cell.can_cover(0, 1));
    cell.row_span = 1;
    cell.col_span = usize::MAX;
    assert!(!cell.can_cover(1, 1));
    assert!(cell.can_cover(2, 1));
}

#[test]
fn placing_evicts_and_moves() {
    let mut view = GridView::new("wall", 2, 2);
    view.place(id(1), 0, 0);
    view.place(id(2), 1, 1);
    view.place(id(3), 0, 0);
    assert_eq!(view.cells.len(), 2);
    assert_eq!(view.cell_at(0, 0).map(|c| c.connection), Some(id(3)));
    view.place(id(2), 0, 1);
    assert_eq!(view.cell_at(0, 1).map(|c| c.connection), Some(id(2)));
    assert!(view.cell_at(1, 1).is_none());
    view.remove(id(2));
    assert!(view.cell_at(0, 1).is_none());
    assert_eq!(view.cells.len(), 1);
}

#[test]
fn a_grid_has_at_least_one_cell() {
    let view = GridView::new("wall", 0, 0);
    assert_eq!((view.rows, view.cols), (1, 1));
    assert_eq!(view.name, "wall");
    assert!(view.cells.is_empty());
}

#[test]
fn clamping_cuts_spans_at_the_edge() {
    let mut view = GridView::new("wall", 2, 3);
    let mut cell = GridCell::new(1, 1, id(1));
    cell.row_span = 9;
    cell.col_span = 9;
    view.cells.push(cell);
    view.cells.push(GridCell::new(2, 0, id(2)));
    view.cells.push(GridCell::new(0, 2, id(3)));
    view.clamp();
    assert_eq!(view.cells.len(), 2);
    assert_eq!((view.cells[0].row_span, view.cells[0].col_span), (1, 2));
    assert_eq!(view.cells[1].connection, id(3));
    let before = format!("{:?}", view);
    view.clamp();
    assert_eq!(format!("{:?}", view), before);
}

#[test]
fn four_streams_make_a_square() {
    let expected = [0, 1, 2, 2, 2, 3, 3, 3, 3, 3, 4];
    for (count, columns) in expected.iter().enumerate() {
        assert_eq!(grid_columns(count), *columns);
    }
    assert_eq!(grid_columns(16), 4);
    assert_eq!(grid_columns(17), 5);
    assert_eq!(wall_columns(0), 1);
}

#[test]
fn the_last_row_is_padded() {
    let open: Vec<Id> = (1..=5).map(|n| id(n)).collect();
    let rows = wall_rows(&open);
    assert_eq!(rows.len(), 2);
    assert_eq!(rows[0].tiles, vec![id(1), id(2), id(3)]);
    assert_eq!(rows[0].fillers, 0);
    assert_eq!(rows[1].tiles, vec![id(4), id(5)]);
    assert_eq!(rows[1].fillers, 1);
    assert!(wall_rows(&Vec::new()).is_empty());
}

#[test]
fn a_saved_wall_has_a_slot_for_every_position() {
    let mut view = GridView::new("wall", 2, 2);
    let mut tall = GridCell::new(0, 0, id(1));
    tall.row_span = 2;
    view.cells.push(tall);
    view.cells.push(GridCell::new(1, 1, id(2)));
    let slots = grid_slots(&view, &vec![id(1)]).unwrap();
    assert_eq!(
        slots,
        vec![
            Slot { row: 0, col: 0, row_span: 2, col_span: 1, body: SlotBody::Tile(id(1)) },
            Slot { row: 1, col: 1, row_span: 1, col_span: 1, body: SlotBody::Missing },
            Slot { row: 0, col: 1, row_span: 1, col_span: 1, body: SlotBody::Empty },
        ]
    );
}

#[test]
fn a_wall_past_the_last_number_is_not_drawn() {
    let mut view = GridView::new("wall", 1, 2);
    let mut wide = GridCell::new(0, 1, id(1));
    wide.col_span = usize::MAX;
    view.cells.push(wide);
    assert!(grid_slots(&view, &Vec::new()).is_none());
    assert!(!view.can_search(0, 1));
    assert!(view.can_search(0, 0));
    assert!(!view.can_cover(0, 1));
    view.clamp();
    assert_eq!(grid_slots(&view, &Vec::new()).unwrap().len(), 2);
}

#[test]
fn the_size_is_rows_by_columns() {
    let view = GridView::new("wall", 12, 3);
    assert_eq!(size_label(&view), "12\u{00d7}3");
}
