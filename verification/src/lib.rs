//! Docker helpers for a containerized OpenClaw checkout: what each command
//! runs, and how the checkout moves to a stable release while keeping its
//! local roots.
pub mod cli;
pub mod commands;
pub mod dotenv;
pub mod error;
pub mod git;
pub mod image;
pub mod number;
pub mod paths;
pub mod roots;
pub mod tag;
pub mod text;
pub mod upgrade;
