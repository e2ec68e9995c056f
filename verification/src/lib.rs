//! Courses-domain service: role-gated CRUD and batched retrieval over course
//! documents, pages, tracks, bookmarks and anchors.
//!
//! The service facade ([`service::CoursesService`]) orchestrates one operation
//! per request: authorize via the shared policy ([`auth::decide`]) when the
//! action mutates, issue one statement against the relational store model
//! ([`store::Store`]), convert rows to wire records ([`entity`]), and respond.
//! Batched parent-to-children lookups are folded by the grouping engine
//! ([`batch`]) so an upstream aggregator can resolve one-to-many fields in a
//! single round trip.

pub mod auth;
pub mod batch;
pub mod entity;
pub mod error;
pub mod service;
pub mod store;
pub mod time;
