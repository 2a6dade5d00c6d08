pub mod buffer;
pub mod codec;
pub mod cursor;
pub mod pool;
pub mod reader;
pub mod view;
pub mod writer;

pub use buffer::ByteBuffer;
pub use cursor::{ByteSink, ByteSource, Cursor};
pub use reader::ByteReader;
pub use view::ByteView;
pub use writer::ByteWriter;
