//! An event-sourced structural model of an HTTP API: a directed endpoint
//! graph built by folding domain events, read-only queries over it (path
//! resolution, unused-path detection, endpoint lookup, deletion-command
//! synthesis), and a layered classifier that matches one observed HTTP
//! interaction against the modelled surface.
//!
//! - [`events`] holds the domain-event log entries and the shape of one
//!   observed interaction.
//! - [`projection`] owns the endpoint graph: an arena of nodes with
//!   child-to-parent edges, mutated only by folding events.
//! - [`queries`] answers structural questions over one projection snapshot.
//! - [`commands`] carries the removal commands the query engine synthesises.
//! - [`interactions`] classifies one interaction against the projection and
//!   escalates matched bodies to the external shape engine.

pub mod commands;
pub mod events;
pub mod interactions;
pub mod projection;
pub mod queries;
pub mod state;
