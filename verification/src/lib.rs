pub mod completion;
pub mod extract;
pub mod json;
pub mod laws;
pub mod locate;
pub mod normalize;
pub mod pipeline;
pub mod prompt;
pub mod schedule;
pub mod summary;
pub mod taxonomy;
pub mod text;
pub mod tracker;
