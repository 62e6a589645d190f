//! Verified core of a RAID reassembly tool: block features (zero blocks,
//! XOR parity), RAID-0/1/5 geometry and assembly plans, detection evidence
//! (row classes, entropy edges, stripe-size votes), report escaping and
//! command-line parsing.
pub mod cli;
pub mod detect;
pub mod features;
pub mod image;
pub mod raid;
pub mod report;
pub mod text;
