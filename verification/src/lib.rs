//! Deterministic causal admission for canonical semantic facts.

pub mod accounting;
pub mod admission;
pub mod aggregate;
pub mod authority;
pub mod ballots;
pub mod base32;
pub mod bearing;
pub mod bounds;
pub mod canon;
pub mod capture;
pub mod carrying;
pub mod causal_order;
pub mod charge;
pub mod checkpoint;
pub mod checks;
pub mod cold;
pub mod coldback;
pub mod content;
pub mod contest;
pub mod continuation;
pub mod continuity;
pub mod costs;
pub mod coverage;
pub mod delta;
pub mod detach;
pub mod device;
pub mod dismissal;
pub mod encode;
pub mod error;
pub mod evaluator;
pub mod evidence;
pub mod exactness;
pub mod fact;
pub mod foresight;
pub mod graph;
pub mod growth;
pub mod ids;
pub mod impact;
pub mod impartial;
pub mod index;
pub mod intake;
pub mod journal;
pub mod linkage;
pub mod listing;
pub mod mandate;
pub mod multimap;
pub mod order;
pub mod ordmap;
pub mod ordset;
pub mod passage;
pub mod pedigree;
pub mod policy;
pub mod projection;
pub mod provenance;
pub mod quarantine;
pub mod reach;
pub mod readback;
pub mod rebuild;
pub mod recount;
pub mod redundancy;
pub mod refit;
pub mod reordering;
pub mod residence;
pub mod reports;
pub mod restart;
pub mod restore;
pub mod retry;
pub mod rollback;
pub mod selection;
pub mod sessions;
pub mod soundness;
pub mod standing;
pub mod sums;
pub mod sweep;
pub mod undo;
pub mod upkeep;
pub mod validation;
pub mod vocabulary;
