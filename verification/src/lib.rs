//! Choosing, pricing and evidencing physical representations of a model's
//! weights.
pub mod accounting;
pub mod action_space;
pub mod allocation;
pub mod assess;
pub mod authority;
pub mod bind;
pub mod binding;
pub mod candidate;
pub mod canon;
pub mod codec;
pub mod coexecution;
pub mod digest;
pub mod error;
pub mod evidence_bank;
pub mod experiment;
pub mod footprint;
pub mod gates;
pub mod generator;
pub mod graph;
pub mod identity;
pub mod instrument;
pub mod json;
pub mod key;
pub mod layered;
pub mod map;
pub mod measurement;
pub mod nvfp4_pack;
pub mod opplan;
pub mod physical;
pub mod plan_roles;
pub mod policy;
pub mod promotion;
pub mod protocol;
pub mod quality;
pub mod ranking;
pub mod reading;
pub mod realization;
pub mod reference_encoder;
pub mod resolved;
pub mod search_evidence;
pub mod search_policy;
pub mod selection;
pub mod semantics;
pub mod source_bank;
pub mod source_identity;
pub mod surface;
pub mod table;
pub mod text;
pub mod transition;
