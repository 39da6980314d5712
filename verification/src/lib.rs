//! Aggregate source-code statistics across a collection of repositories:
//! per-language line counts merged into a duplicate-free global total and a
//! per-repository breakdown, normalized, adjusted and ordered
//! deterministically.

pub mod laws;
pub mod model;
pub mod repo;
pub mod report;
pub mod stats;

use vstd::prelude::*;

verus! {

/// Fixed correction added once to the global Rust code count, representing
/// work known to be undercounted by the automated pipeline.
pub const RUST_CODE_ADJUSTMENT: u64 = 15673;

/// Fixed correction added once to the global TypeScript code count.
pub const TYPESCRIPT_CODE_ADJUSTMENT: u64 = 4333;

/// The fixed exclude-glob configuration handed to the line-counting
/// capability: build output directories and lockfiles are never counted.
pub fn excluded_globs() -> (v: Vec<&'static str>)
    ensures
        v@.len() == 3,
        v@[0]@ == "build"@,
        v@[1]@ == "package-lock.json"@,
        v@[2]@ == "pnpm-lock.yaml"@,
{
    let mut v: Vec<&'static str> = Vec::new();
    v.push("build");
    v.push("package-lock.json");
    v.push("pnpm-lock.yaml");
    v
}

} // verus!
