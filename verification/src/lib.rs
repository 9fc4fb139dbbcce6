use vstd::prelude::*;

pub mod adapter;
pub mod at;
pub mod assoc;
pub mod checks;
pub mod closure;
pub mod compose;
pub mod coverage;
pub mod deep;
pub mod diff;
pub mod entomologist;
pub mod fuse;
pub mod githubissues;
pub mod gitlab;
pub mod gitlabissues;
pub mod graph;
pub mod ingest;
pub mod inherit;
pub mod json;
pub mod mdadapter;
pub mod mdtable;
pub mod output;
pub mod pattern;
pub mod profile;
pub mod query;
pub mod remote;
pub mod render;
pub mod rules;
pub mod seqs;
pub mod sortkey;
pub mod suggest;
pub mod summary;
pub mod text;
pub mod tomladapter;
pub mod trace;
pub mod types;
pub mod validate;
pub mod yaml;

verus! {
}
