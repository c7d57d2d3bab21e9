pub mod manifest;
pub mod prompt;
pub mod error;
pub mod retry;
pub mod openrouter;
pub mod postprocess;
