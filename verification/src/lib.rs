//! Verified core of the MCFC compiler toolchain: lexing, diagnostics,
//! source normalisation, editor analysis helpers, command-line option
//! parsing, mcdoc schema reduction and the mcfd host-bridge protocol.

pub mod text;
pub mod diagnostics;
pub mod lexer;
pub mod ast;
pub mod language_catalog;
pub mod compiler;
pub mod ir;
pub mod backend;
pub mod analysis;
pub mod cli;
pub mod mcfd;
pub mod mcdoc;
