//! Binary tree on the bit-field maze: each cell carves its east or its south wall.
use vstd::prelude::*;
use crate::bitfield::direction::Direction;
use crate::bitfield::maze::Maze;
use crate::random::pick;

verus! {

/// Generates a `width` by `height` bit-field maze: walking the cells row by row from the
/// north-west corner, each carves its east or its south wall at random; a cell on the east
/// edge carves south, one on the south edge carves east, and the south-east corner carves
/// nothing.
pub fn generate(width: usize, height: usize) -> (maze: Maze)
    requires
        width * height <= usize::MAX,
    ensures
        maze.wf(),
        maze.w() == width,
        maze.h() == height,
        forall|x: int, y: int| 0 <= x < width && 0 <= y < height ==> {
            let v = #[trigger] maze.cell_spec(x, y);
            if x == width - 1 && y == height - 1 {
                v == 0
            } else if x == width - 1 {
                v == Direction::S.bits_spec()
            } else if y == height - 1 {
                v == Direction::E.bits_spec()
            } else {
                v == Direction::E.bits_spec() || v == Direction::S.bits_spec()
            }
        },
{
    let mut maze = Maze::new(width, height);
    let es_direction: Vec<Direction> = vec![Direction::E, Direction::S];
    let mut y: usize = 0;
    while y < height
        invariant
            maze.wf(),
            maze.w() == width,
            maze.h() == height,
            es_direction@ == seq![Direction::E, Direction::S],
            y <= height,
            forall|i: int, j: int| 0 <= i < width && y <= j < height ==> #[trigger] maze.cell_spec(i, j) == 0,
            forall|i: int, j: int| 0 <= i < width && 0 <= j < y ==> {
                let v = #[trigger] maze.cell_spec(i, j);
                if i == width - 1 && j == height - 1 {
                    v == 0
                } else if i == width - 1 {
                    v == 2
                } else if j == height - 1 {
                    v == 4
                } else {
                    v == 4 || v == 2
                }
            },
        decreases height - y,
    {
        let mut x: usize = 0;
        while x < width
            invariant
                maze.wf(),
                maze.w() == width,
                maze.h() == height,
                es_direction@ == seq![Direction::E, Direction::S],
                y < height,
                x <= width,
                forall|i: int, j: int| 0 <= i < width && y < j < height ==> #[trigger] maze.cell_spec(i, j) == 0,
                forall|i: int| x <= i < width ==> #[trigger] maze.cell_spec(i, y as int) == 0,
                forall|i: int, j: int| 0 <= i < width && 0 <= j <= y && (j < y || i < x) ==> {
                    let v = #[trigger] maze.cell_spec(i, j);
                    if i == width - 1 && j == height - 1 {
                        v == 0
                    } else if i == width - 1 {
                        v == 2
                    } else if j == height - 1 {
                        v == 4
                    } else {
                        v == 4 || v == 2
                    }
                },
            decreases width - x,
        {
            let east_most_cell = x == width - 1;
            let south_most_cell = y == height - 1;
            let ghost before = maze.cell_spec(x as int, y as int);
            if east_most_cell && south_most_cell {
            } else if east_most_cell {
                maze.carve(x, y, Direction::S);
                assert(0u8 | 2u8 == 2u8) by (bit_vector);
            } else if south_most_cell {
                maze.carve(x, y, Direction::E);
                assert(0u8 | 4u8 == 4u8) by (bit_vector);
            } else {
                let d = pick(&es_direction).unwrap();
                assert(es_direction@.contains(d));
                assert(d == Direction::E || d == Direction::S) by {
                    let k = choose|k: int| 0 <= k < 2 && es_direction@[k] == d;
                }
                maze.carve(x, y, d);
                assert(0u8 | 2u8 == 2u8) by (bit_vector);
                assert(0u8 | 4u8 == 4u8) by (bit_vector);
            }
            x = x + 1;
        }
        y = y + 1;
    }
    maze
}

} // verus!
