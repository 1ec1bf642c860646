pub mod boundary;
pub mod direction;
pub mod field;
pub mod life;
pub mod square;

pub use boundary::{BoundarySquare, CellsGettable};
pub use direction::Direction;
pub use field::{Field, Shape};
pub use square::Square;
