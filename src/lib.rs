pub mod buffer;
pub mod checkpoint;
pub mod codec;
pub mod env;
pub mod evaluation;
pub mod halving;
pub mod node;
pub mod pipeline;
pub mod random;
pub mod replay;
