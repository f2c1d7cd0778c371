pub mod codec;
pub mod entry;
pub mod paths;
pub mod scan;
pub mod search;
pub mod store;
pub mod text;

pub use entry::Config;
pub use entry::FileEntry;
pub use entry::IndexEntry;
pub use entry::IndexProgress;
pub use entry::Tab;
pub use scan::ChildEntry;
pub use scan::Scanner;
pub use store::IndexState;
