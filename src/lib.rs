pub mod condense;
pub mod hits;
pub mod path;
pub mod schema;
pub mod search;
pub mod text;
