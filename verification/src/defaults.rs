//! What the options are unless something else is asked for.
use vstd::prelude::*;

verus! {

pub const GLOB: &'static str = "**/*.{graphql,gql}";

pub const CONCURRENCY: usize = 1;

pub const PAGE_SIZE: usize = 100;

pub const RETRIES: u32 = 2;

/// In milliseconds.
pub const DELAY: u64 = 0;

/// In seconds.
pub const CONNECT_TIMEOUT: u64 = 10;

/// In seconds.
pub const REQUEST_TIMEOUT: u64 = 60;

/// In seconds.
pub const FILE_TIMEOUT: u64 = 300;

pub const MAX_PAGES: usize = 20;

/// In bytes: 50 MB.
pub const MAX_RESPONSE_BYTES: u64 = 52428800;

} // verus!
