//! Engine configuration.
use vstd::prelude::*;
use vstd::string::*;

use crate::config::{is_url, is_url_text, law_addresses};
use crate::errors::{Error, ErrorModel};
use crate::logger::Logger;
use crate::text::{
    chars_of, debug_text, is_white, law_ascii_white_space, law_trimming_takes_white_space_only,
    quoted, trim, trimmed,
};

verus! {

/// Engine configuration. The CLI builds it from its arguments, graphql-config and the
/// environment.
#[derive(Debug)]
pub struct Options {
    pub root: String,
    pub glob: String,
    pub endpoint: String,
    pub headers: Vec<(String, String)>,
    pub concurrency: usize,
    pub page_size: usize,
    pub retries: u32,
    /// Between two paginated requests, in milliseconds.
    pub delay: u64,
    /// In seconds.
    pub connect_timeout: u64,
    /// In seconds.
    pub request_timeout: u64,
    /// In seconds.
    pub file_timeout: u64,
    pub max_pages: usize,
    pub max_response_bytes: u64,
    pub allow_partial: bool,
    pub envelope: bool,
    pub force: bool,
    pub check: bool,
    pub dry_run: bool,
    pub logger: Logger,
}

/// What is wrong with options, if anything: the first of these that applies.
pub open spec fn options_fault(
    concurrency: int,
    page_size: int,
    max_pages: int,
    endpoint: Seq<char>,
) -> Option<Seq<char>> {
    if concurrency == 0 {
        Some("--concurrency must be at least 1"@)
    } else if page_size == 0 {
        Some("--page-size must be at least 1"@)
    } else if max_pages == 0 {
        Some("--max-pages must be at least 1"@)
    } else if trimmed(endpoint).len() == 0 {
        Some(
            "no GraphQL endpoint. Pass --endpoint, or set one in graphql-config (extensions.endpoints.default.url, or a schema URL)."@,
        )
    } else if !is_url_text(endpoint) {
        Some("the endpoint must be an http(s) URL, got "@ + debug_text(endpoint))
    } else {
        None
    }
}

impl Options {
    /// Reject values that would hang or make no sense, rather than discovering it at runtime
    /// (a `concurrency` of 0 would block on the semaphore until the CI runner times out).
    pub fn validate(&self) -> (r: Result<(), Error>)
        ensures
            match options_fault(
                self.concurrency as int,
                self.page_size as int,
                self.max_pages as int,
                self.endpoint@,
            ) {
                Some(message) => r matches Err(e) && e@ == ErrorModel::Config(message),
                None => r is Ok,
            },
    {
        if self.concurrency == 0 {
            return Err(Error::Config("--concurrency must be at least 1".to_owned()));
        }
        if self.page_size == 0 {
            return Err(Error::Config("--page-size must be at least 1".to_owned()));
        }
        if self.max_pages == 0 {
            return Err(Error::Config("--max-pages must be at least 1".to_owned()));
        }
        if chars_of(trim(self.endpoint.as_str()).as_str()).len() == 0 {
            return Err(
                Error::Config(
                    "no GraphQL endpoint. Pass --endpoint, or set one in graphql-config (extensions.endpoints.default.url, or a schema URL).".to_owned(),
                ),
            );
        }
        if !is_url(self.endpoint.as_str()) {
            let mut message = "the endpoint must be an http(s) URL, got ".to_owned();
            message.append(quoted(self.endpoint.as_str()).as_str());
            return Err(Error::Config(message));
        }
        Ok(())
    }
}

/// Options are accepted if and only if there is at least one of everything that is counted, and
/// the endpoint is an address on the web.
pub proof fn law_valid_options(
    concurrency: int,
    page_size: int,
    max_pages: int,
    endpoint: Seq<char>,
)
    requires
        concurrency >= 0,
        page_size >= 0,
        max_pages >= 0,
    ensures
        options_fault(concurrency, page_size, max_pages, endpoint) is None <==> concurrency >= 1
            && page_size >= 1 && max_pages >= 1 && is_url_text(endpoint),
{
    if is_url_text(endpoint) {
        law_addresses(seq![], endpoint);
        law_trimming_takes_white_space_only(endpoint);
        law_ascii_white_space('h');
        assert(!is_white(endpoint[0]));
        let (from, to): (int, int) = choose|from: int, to: int|
            {
                &&& 0 <= from <= to <= endpoint.len()
                &&& trimmed(endpoint) == #[trigger] endpoint.subrange(from, to)
                &&& forall|k: int|
                    0 <= k < from || to <= k < endpoint.len() ==> is_white(#[trigger] endpoint[k])
                &&& from < to ==> !is_white(endpoint[from]) && !is_white(endpoint[to - 1])
            };
        assert(endpoint.subrange(from, to).len() == to - from);
    }
}

} // verus!
