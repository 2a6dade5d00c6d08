pub mod builder;
pub mod ops;
pub mod small;
pub mod utf8;
pub mod view;

pub use builder::StringBuilder;
pub use ops::{join, normalize, replace, trim};
pub use small::SmallString;
pub use view::StringView;
