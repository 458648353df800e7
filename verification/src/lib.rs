pub mod syntax;
pub mod eval;
pub mod ts;
pub mod props;
pub mod meta;
