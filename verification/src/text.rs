//! Grids as text: `#` for an alive cell, a blank for a dead one, one line per row of cells,
//! and in 3D an empty line after every plane.

use vstd::prelude::*;
use crate::grid2::Grid2;
use crate::grid3::Grid3;

verus! {

/// The character for a cell.
pub open spec fn cell_char(alive: bool) -> char {
    if alive {
        '#'
    } else {
        ' '
    }
}

impl Grid2 {
    /// The first `n` cells of row `y`, as characters.
    pub open spec fn row_text(&self, y: int, n: int) -> Seq<char> {
        Seq::new(n as nat, |x: int| cell_char(self.alive(x, y)))
    }

    /// The first `n` rows, each with its line end.
    pub open spec fn rows_text(&self, n: int) -> Seq<char>
        decreases n,
    {
        if n <= 0 {
            Seq::empty()
        } else {
            self.rows_text(n - 1) + self.row_text(n - 1, self.size.x as int).push('\n')
        }
    }

    /// The grid as text.
    pub open spec fn text(&self) -> Seq<char> {
        self.rows_text(self.size.y as int)
    }
}

impl Grid3 {
    /// The first `n` cells of row `y` of plane `z`, as characters.
    pub open spec fn row_text(&self, y: int, z: int, n: int) -> Seq<char> {
        Seq::new(n as nat, |x: int| cell_char(self.alive(x, y, z)))
    }

    /// The first `n` rows of plane `z`, each with its line end.
    pub open spec fn rows_text(&self, z: int, n: int) -> Seq<char>
        decreases n,
    {
        if n <= 0 {
            Seq::empty()
        } else {
            self.rows_text(z, n - 1) + self.row_text(n - 1, z, self.size.x as int).push('\n')
        }
    }

    /// The first `n` planes, each followed by an empty line.
    pub open spec fn planes_text(&self, n: int) -> Seq<char>
        decreases n,
    {
        if n <= 0 {
            Seq::empty()
        } else {
            self.planes_text(n - 1) + self.rows_text(n - 1, self.size.y as int).push('\n')
        }
    }

    /// The grid as text.
    pub open spec fn text(&self) -> Seq<char> {
        self.planes_text(self.size.z as int)
    }
}

/// Write a 2D grid as text, row by row.
pub fn export_txt2(grid: &Grid2) -> (s: Vec<char>)
    requires
        grid.wf(),
    ensures
        s@ == grid.text(),
{
    let mut s: Vec<char> = Vec::new();
    let mut y: u32 = 0;
    while y < grid.size.y
        invariant
            grid.wf(),
            y <= grid.size.y,
            s@ == grid.rows_text(y as int),
        decreases grid.size.y - y,
    {
        let ghost done = s@;
        let mut x: u32 = 0;
        while x < grid.size.x
            invariant
                grid.wf(),
                y < grid.size.y,
                x <= grid.size.x,
                s@ == done + grid.row_text(y as int, x as int),
            decreases grid.size.x - x,
        {
            let alive = grid.cell_at(x, y);
            s.push(if alive {
                '#'
            } else {
                ' '
            });
            proof {
                assert(grid.row_text(y as int, x + 1) =~= grid.row_text(y as int, x as int).push(
                    cell_char(grid.alive(x as int, y as int)),
                ));
                assert(s@ =~= done + grid.row_text(y as int, x + 1));
            }
            x = x + 1;
        }
        s.push('\n');
        proof {
            assert(s@ =~= done + grid.row_text(y as int, grid.size.x as int).push('\n'));
        }
        y = y + 1;
    }
    s
}

/// Write a 3D grid as text, plane by plane and row by row.
pub fn export_txt3(grid: &Grid3) -> (s: Vec<char>)
    requires
        grid.wf(),
    ensures
        s@ == grid.text(),
{
    let mut s: Vec<char> = Vec::new();
    let mut z: u32 = 0;
    while z < grid.size.z
        invariant
            grid.wf(),
            z <= grid.size.z,
            s@ == grid.planes_text(z as int),
        decreases grid.size.z - z,
    {
        let ghost planes = s@;
        let mut y: u32 = 0;
        while y < grid.size.y
            invariant
                grid.wf(),
                z < grid.size.z,
                y <= grid.size.y,
                s@ == planes + grid.rows_text(z as int, y as int),
            decreases grid.size.y - y,
        {
            let ghost done = s@;
            let mut x: u32 = 0;
            while x < grid.size.x
                invariant
                    grid.wf(),
                    z < grid.size.z,
                    y < grid.size.y,
                    x <= grid.size.x,
                    s@ == done + grid.row_text(y as int, z as int, x as int),
                decreases grid.size.x - x,
            {
                let alive = grid.cell_at(x, y, z);
                s.push(if alive {
                    '#'
                } else {
                    ' '
                });
                proof {
                    assert(grid.row_text(y as int, z as int, x + 1) =~= grid.row_text(
                        y as int,
                        z as int,
                        x as int,
                    ).push(cell_char(grid.alive(x as int, y as int, z as int))));
                    assert(s@ =~= done + grid.row_text(y as int, z as int, x + 1));
                }
                x = x + 1;
            }
            s.push('\n');
            proof {
                assert(s@ =~= planes + (grid.rows_text(z as int, y as int) + grid.row_text(
                    y as int,
                    z as int,
                    grid.size.x as int,
                ).push('\n')));
            }
            y = y + 1;
        }
        s.push('\n');
        proof {
            assert(s@ =~= planes + grid.rows_text(z as int, grid.size.y as int).push('\n'));
        }
        z = z + 1;
    }
    s
}

} // verus!
