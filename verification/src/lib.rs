//! Verified core of a tax-form computation pipeline: the text conventions of
//! form input files, rule schemas and their execution DAG, arithmetic and
//! condition expressions, and the form registry.

pub mod text;
pub mod strmap;
pub mod dag;
pub mod literal;
pub mod references;
pub mod schema;
pub mod dag_build;
pub mod expr;
pub mod plan;
pub mod lexer;
pub mod form;
pub mod dsl;
pub mod forms;
pub mod engine;
pub mod cli;
pub mod trades;
pub mod import;
