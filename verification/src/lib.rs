pub mod number;
pub mod text;
pub mod bounds;
pub mod list;

pub use bounds::{
    bounds_to_std_range, BoundOrFiller, BoundsError, BoundsType, Side, UserBounds, UserBoundsList,
};
pub use list::{parse_bounds_list, parse_bounds_list_2};
