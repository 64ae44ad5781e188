//! The host side of a batched language-model engine: requests, pages, grammars, drafts, and what
//! is loaded and run for them. What the device computes is not here.
pub mod arith;
pub mod async_gen;
pub mod attention;
pub mod cache;
pub mod config;
pub mod config_laws;
pub mod cpu_cache;
pub mod dflash2;
pub mod draft;
pub mod draft_conf;
pub mod draft_head;
pub mod filter;
pub mod gdn;
pub mod generator;
pub mod infer;
pub mod json;
pub mod linear;
pub mod loop_detect;
pub mod model;
pub mod moe;
pub mod mtp;
pub mod needs;
pub mod needs_laws;
pub mod ngram;
pub mod page_laws;
pub mod page_uses;
pub mod paged;
pub mod recent;
pub mod sorted;
pub mod tensors;
pub mod text;
