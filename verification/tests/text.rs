use cytogon::text::{export_txt2, export_txt3};
use cytogon::{Grid2, Grid3, IVec2, IVec3, UVec2, UVec3};

#[test]
fn text_of_grid2() {
    let mut grid = Grid2::new(UVec2::new(3, 2));
    grid.fill(false);
    grid.set_cell(IVec2::new(0, 0), true);
    grid.set_cell(IVec2::new(2, 1), true);
    let s: String = export_txt2(&grid).into_iter().collect();
    assert_eq!(s, "#  \n  #\n");
    let mut wide = Grid2::new(UVec2::new(9, 1));
    wide.fill(true);
    let s: String = export_txt2(&wide).into_iter().collect();
    assert_eq!(s, "#########\n");
    let mut empty = Grid2::new(UVec2::new(0, 2));
    empty.fill(true);
    let s: String = export_txt2(&empty).into_iter().collect();
    assert_eq!(s, "\n\n");
}

#[test]
fn text_of_grid3() {
    let mut grid = Grid3::new(UVec3::new(2, 2, 2));
    grid.fill(false);
    grid.set_cell(IVec3::new(1, 0, 0), true);
    grid.set_cell(IVec3::new(0, 1, 1), true);
    let s: String = export_txt3(&grid).into_iter().collect();
    assert_eq!(s, " #\n  \n\n  \n# \n\n");
    let mut none = Grid3::new(UVec3::new(2, 2, 0));
    none.fill(true);
    assert_eq!(export_txt3(&none).len(), 0);
}
