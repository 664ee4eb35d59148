//! Domain logic of a local development workspace manager: projects, runtimes, processes,
//! ports and services found on the machine.
pub mod commands;
pub mod config;
pub mod detection;
pub mod discovery;
pub mod environments;
pub mod filesystem;
pub mod manifests;
pub mod paths;
pub mod platform;
pub mod ports;
pub mod processes;
pub mod projects;
pub mod runtimes;
pub mod services;
pub mod technologies;
pub mod text;
pub mod workspace;
