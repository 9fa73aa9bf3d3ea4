//! A compiler from dependency graphs of pending database operations to
//! plans.
//!
//! A [`graph::QueryGraph`] says which operation needs the result of which
//! other.  [`translate::translate`] turns it into an
//! [`expression::Expression`]: the operations in an order in which they can
//! run, each value that a later operation needs bound to a name, and the
//! later operation rewritten to refer to that name.
//!
//! What the compiler produces is defined in [`plan`], as a function of the
//! graph and of what the query builder answers.  The other modules prove
//! what holds of every plan: [`consumption`] that contents are consumed once,
//! [`scope`] that every name is bound before it is used, [`order`] that
//! children and roots keep their order, [`independence`] that roots which
//! share nothing do not affect each other, [`coverage`] that a plan holds
//! each node of the graph once, [`failure`] that compilation fails on a
//! node without content with the error that names it.

pub mod consumption;
pub mod coverage;
pub mod error;
pub mod expression;
pub mod failure;
pub mod frame;
pub mod graph;
pub mod independence;
pub mod order;
pub mod plan;
pub mod query;
pub mod reach;
pub mod scope;
pub mod translate;
