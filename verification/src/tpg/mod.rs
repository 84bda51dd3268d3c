pub mod abort;
pub mod awaits;
pub mod commit;
pub mod driven;
pub mod ev_node;
pub mod laws;
pub mod links;
pub mod marks;
pub mod marks_next;
pub mod marks_steps;
pub mod model;
pub mod next;
pub mod orderly;
pub mod orderly_construct;
pub mod orderly_links;
pub mod orderly_steps;
pub mod published;
pub mod published_laws;
pub mod published_quiet;
pub mod published_steps;
pub mod release;
pub mod rest;
pub mod sound;
pub mod sound_commit;
pub mod sound_links;
pub mod sound_steps;
pub mod steady;
pub mod steps;
pub mod tpg;
pub mod txn_node;
