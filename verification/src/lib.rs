pub mod analysis;
pub mod args;
pub mod assoc;
pub mod banner;
pub mod builder;
pub mod cache;
pub mod check;
pub mod client_call;
pub mod commands;
pub mod config;
pub mod cut;
pub mod dependency;
pub mod deploy;
pub mod edge;
pub mod error;
pub mod extractor;
pub mod graph;
pub mod input;
pub mod index;
pub mod json;
pub mod lang;
pub mod manifest;
pub mod mesh;
pub mod metrics;
pub mod model;
pub mod naming;
pub mod node;
pub mod order;
pub mod paths;
pub mod pg;
pub mod pod;
pub mod report;
pub mod resolver;
pub mod scanner;
pub mod scc;
pub mod syntax;
pub mod tags;
pub mod text;
