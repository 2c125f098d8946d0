//! A reverse-mode automatic-differentiation engine over scalar computation
//! graphs: elementary operations are recorded as a directed acyclic graph of
//! nodes, and a single backward traversal computes the partial derivative of
//! a chosen root with respect to every node it depends on.
pub mod engine;
pub mod network;
pub mod scalar;
