use automations::hex_table::HexTable;
use automations::table::Table;

#[test]
fn around_1() {
    let table = Table::new(false, 16);
    let around = table.around(0, 0);
    assert_eq!(around.len(), 2);
}

#[test]
fn around_2() {
    let table = Table::new(false, 16);
    let around = table.around(15, 15);
    assert_eq!(around.len(), 2);
}

#[test]
fn around_3() {
    let table = Table::new(false, 16);
    let around = table.around(5, 5);
    assert_eq!(around.len(), 4);
}

#[test]
fn around_1_line() {
    let table = Table::new(false, 16);
    let around = table.around_line(0);
    assert_eq!(around.len(), 2);
}

#[test]
fn around_2_line() {
    let table = Table::new(false, 16);
    let around = table.around_line(16 * 16 - 1);
    assert_eq!(around.len(), 2);
}

#[test]
fn around_3_line() {
    let table = Table::new(false, 16);
    let around = table.around_line(24);
    assert_eq!(around.len(), 4);
}

/// The rows of a hexagonal grid for a picture of side `len`, as the
/// application computes them: `len` divided by the height of a hexagon row.
fn hex_rows(len: usize) -> usize {
    (len as f32 / 0.866025) as usize
}

#[test]
fn hex_table_around_1() {
    let table = HexTable::new(10, false, hex_rows(10));
    let around = table.around(9, 0);
    assert_eq!(around.len(), 3);
}

#[test]
fn table_new_fills_every_cell() {
    let table = Table::new(7u8, 3);
    assert_eq!(table.side(), 3);
    assert_eq!(table.len(), 9);
    for i in 0..9 {
        assert_eq!(*table.get(i), 7);
    }
}

#[test]
fn table_set_then_get() {
    let mut table = Table::new(0u8, 4);
    table.set_dim(1, 2, 9);
    assert_eq!(*table.get_dim(1, 2), 9);
    assert_eq!(*table.get(1 + 2 * 4), 9);
    table.set(3, 5);
    assert_eq!(*table.get(3), 5);
    assert_eq!(*table.get_dim(1, 2), 9);
    assert_eq!(*table.get(0), 0);
}

#[test]
fn table_around_order_and_values() {
    let mut table = Table::new(0u8, 3);
    for i in 0..9 {
        table.set(i, i as u8);
    }
    let around: Vec<u8> = table.around(1, 1).into_iter().copied().collect();
    assert_eq!(around, vec![1, 7, 5, 3]);
    let edge: Vec<u8> = table.around(2, 1).into_iter().copied().collect();
    assert_eq!(edge, vec![2, 8, 4]);
    let line: Vec<u8> = table.around_line(5).into_iter().copied().collect();
    assert_eq!(line, edge);
}

#[test]
fn table_around_reads_wrapped_coordinates_as_negative() {
    let mut table = Table::new(0u8, 3);
    for i in 0..9 {
        table.set(i, i as u8);
    }
    // Row `usize::MAX` stands for row -1: only the cell below it, row 0, is on the grid.
    let below: Vec<u8> = table.around(2, usize::MAX).into_iter().copied().collect();
    assert_eq!(below, vec![2]);
    // Column `usize::MAX` stands for column -1: its right neighbour is column 0.
    let right: Vec<u8> = table.around(usize::MAX, 1).into_iter().copied().collect();
    assert_eq!(right, vec![3]);
    let single = Table::new(7u8, 1);
    let line: Vec<u8> = single.around_line(usize::MAX).into_iter().copied().collect();
    assert_eq!(line, vec![7]);
}

#[test]
fn table_around_off_grid() {
    let table = Table::new(false, 4);
    assert_eq!(table.around(4, 1).len(), 1);
    assert_eq!(table.around(10, 10).len(), 0);
}

#[test]
fn table_grow_doubles_blocks() {
    let mut table = Table::new(0u8, 2);
    table.set_dim(0, 0, 1);
    table.set_dim(1, 0, 2);
    table.set_dim(0, 1, 3);
    table.set_dim(1, 1, 4);
    table.grow();
    assert_eq!(table.side(), 4);
    let cells: Vec<u8> = table.into();
    assert_eq!(cells, vec![1, 1, 2, 2, 1, 1, 2, 2, 3, 3, 4, 4, 3, 3, 4, 4]);
}

#[test]
fn table_grow_quadruples_each_count() {
    let mut table = Table::new(0u8, 3);
    for (i, v) in [5u8, 0, 5, 9, 5, 0, 0, 0, 9].iter().enumerate() {
        table.set(i, *v);
    }
    table.grow();
    let cells: Vec<u8> = table.iter().copied().collect();
    assert_eq!(cells.len(), 36);
    assert_eq!(cells.iter().filter(|v| **v == 5).count(), 12);
    assert_eq!(cells.iter().filter(|v| **v == 9).count(), 8);
    assert_eq!(cells.iter().filter(|v| **v == 0).count(), 16);
}

#[test]
fn table_grow_empty() {
    let mut table = Table::new(true, 0);
    table.grow();
    assert_eq!(table.side(), 0);
    assert_eq!(table.len(), 0);
}

#[test]
fn table_clone_and_iter() {
    let mut table = Table::new(false, 2);
    table.set(2, true);
    let copy = table.clone();
    let cells: Vec<bool> = copy.iter().copied().collect();
    assert_eq!(cells, vec![false, false, true, false]);
}

#[test]
fn table_convert_copy() {
    let mut table = Table::new(false, 2);
    table.set(1, true);
    let mut target = Table::new(9u8, 3);
    table.convert_copy(&mut target, |v| if v { 200 } else { 1 });
    let cells: Vec<u8> = target.into();
    assert_eq!(cells, vec![1, 200, 1, 1, 9, 9, 9, 9, 9]);
}

#[test]
fn bool_image_bytes() {
    let mut table = Table::new(false, 2);
    table.set(1, true);
    let image = table.get_image_data();
    assert_eq!(image, vec![0, 0, 0, 0, 255, 255, 255, 255, 0, 0, 0, 0, 0, 0, 0, 0]);
}

#[test]
fn byte_image_bytes() {
    let mut table = Table::new(0u8, 1);
    assert_eq!(table.get_image_data(), vec![0, 0, 0, 0]);
    table.set(0, 17);
    assert_eq!(table.get_image_data(), vec![17, 17, 17, 255]);
}

#[test]
fn hex_table_dimensions_and_cells() {
    let mut table = HexTable::new(10, 0u8, hex_rows(10));
    assert_eq!(table.dimensions(), (10, 11));
    assert_eq!(table.len(), 10);
    table.set_dim(3, 4, 6);
    assert_eq!(*table.get_dim(3, 4), 6);
    assert_eq!(*table.get(3 + 4 * 10), 6);
    table.set(0, 2);
    assert_eq!(*table.get_dim(0, 0), 2);
}

#[test]
fn hex_table_around_order() {
    let mut table = HexTable::new(3, 0u8, 3);
    for i in 0..9 {
        table.set(i, i as u8);
    }
    let around: Vec<u8> = table.around(1, 1).into_iter().copied().collect();
    assert_eq!(around, vec![1, 2, 3, 5, 6, 7]);
    let corner: Vec<u8> = table.around(0, 0).into_iter().copied().collect();
    assert_eq!(corner, vec![1, 3]);
    let clone = table.clone();
    assert_eq!(*clone.get(8), 8);
}
