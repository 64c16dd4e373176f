//! Cursor-following retrieval of the registry's paginated collections.
//!
//! A collection endpoint answers one page at a time, together with a
//! `next` URL whose `offset` query parameter says where the following
//! page starts. The cursor state lives here: it accumulates the records
//! in arrival order and extracts each next offset. A `next` URL without a
//! readable offset is a fatal error — guessing an offset could silently
//! skip or repeat records.

use vstd::prelude::*;

use crate::netbox::Device;
use crate::netbox::NetboxDCIMDeviceList;
use crate::numbers;

verus! {

/// The page size requested from the registry's collection endpoints.
pub const API_LIMIT: u32 = 100;

/// What parsing a string as a URL and reading its query yields: nothing
/// when the string is no absolute URL, else the decoded key/value pairs
/// of its query in order. Both steps depend on the string alone.
pub uninterp spec fn spec_url_query_pairs(s: Seq<char>) -> Option<Seq<(Seq<char>, Seq<char>)>>;

/// Relies on url::Url::parse and url::Url::query_pairs: parsing either
/// fails or yields the URL's decoded query pairs in order; both are
/// functions of the input string alone.
#[verifier::external_body]
fn url_query_pairs(s: &str) -> (r: Option<Vec<(String, String)>>)
    ensures
        match r {
            Some(pairs) => spec_url_query_pairs(s@) matches Some(q) && q.len() == pairs@.len()
                && forall|i: int| 0 <= i < q.len() ==> q[i] == (pairs@[i].0@, pairs@[i].1@),
            None => spec_url_query_pairs(s@) is None,
        },
{
    match url::Url::parse(s) {
        Ok(u) => Some(u.query_pairs().into_owned().collect()),
        Err(_) => None,
    }
}

/// Why a `next` cursor could not be followed.
#[derive(PartialEq, Eq, Structural, Clone, Copy, Debug)]
pub enum PagerError {
    /// The `next` URL did not parse as a URL.
    InvalidNextUrl,
    /// The `next` URL carries no `offset` query parameter.
    MissingOffset,
    /// The `offset` value is not an unsigned 32-bit decimal number.
    InvalidOffset,
}

/// The value of the first pair that carries `key`, scanning in order.
pub open spec fn spec_first_value_for(
    pairs: Seq<(Seq<char>, Seq<char>)>,
    key: Seq<char>,
) -> Option<Seq<char>>
    decreases pairs.len(),
{
    if pairs.len() == 0 {
        None
    } else if pairs[0].0 == key {
        Some(pairs[0].1)
    } else {
        spec_first_value_for(pairs.drop_first(), key)
    }
}

/// The offset a `next` URL denotes: the first `offset` query parameter,
/// read as an unsigned 32-bit decimal number, or the error that step
/// fails with.
pub open spec fn spec_extract_offset(s: Seq<char>) -> Result<u32, PagerError> {
    match spec_url_query_pairs(s) {
        None => Err(PagerError::InvalidNextUrl),
        Some(pairs) => match spec_first_value_for(pairs, "offset"@) {
            None => Err(PagerError::MissingOffset),
            Some(v) => match numbers::spec_parse_u32(v) {
                None => Err(PagerError::InvalidOffset),
                Some(n) => Ok(n),
            },
        },
    }
}

/// Extract the offset for the following page from a `next` URL.
pub fn extract_offset(url_string: &String) -> (r: Result<u32, PagerError>)
    ensures
        r == spec_extract_offset(url_string@),
{
    let pairs = match url_query_pairs(url_string.as_str()) {
        Some(pairs) => pairs,
        None => {
            return Err(PagerError::InvalidNextUrl);
        },
    };
    let ghost q = spec_url_query_pairs(url_string@).unwrap();
    let key: String = "offset".to_owned();
    let count = pairs.len();
    let mut i: usize = 0;
    proof {
        assert(q.skip(0int) =~= q);
    }
    while i < count
        invariant
            spec_url_query_pairs(url_string@) == Some(q),
            count == pairs@.len() == q.len(),
            0 <= i <= count,
            key@ == "offset"@,
            forall|j: int| 0 <= j < q.len() ==> q[j] == (#[trigger] pairs@[j].0@, pairs@[j].1@),
            spec_first_value_for(q.skip(i as int), "offset"@) == spec_first_value_for(
                q,
                "offset"@,
            ),
        decreases count - i,
    {
        proof {
            assert(q.skip(i as int)[0] == q[i as int]);
        }
        if pairs[i].0 == key {
            let value = &pairs[i].1;
            proof {
                assert(spec_first_value_for(q.skip(i as int), "offset"@) == Some(value@));
            }
            return match numbers::parse_u32(value.as_str()) {
                Some(n) => Ok(n),
                None => Err(PagerError::InvalidOffset),
            };
        }
        proof {
            assert(q.skip(i as int).drop_first() =~= q.skip(i + 1));
        }
        i = i + 1;
    }
    proof {
        assert(q.skip(count as int) =~= Seq::<(Seq<char>, Seq<char>)>::empty());
    }
    Err(PagerError::MissingOffset)
}

/// The query string of one page request: the page size, the offset, and
/// the caller's filter appended verbatim.
pub fn build_page_query(limit: u32, offset: u32, filter: &str) -> (r: String)
    ensures
        r@ == "limit="@ + numbers::spec_decimal_digits(limit as nat) + "&offset="@
            + numbers::spec_decimal_digits(offset as nat) + "&"@ + filter@,
{
    let mut query: String = "limit=".to_owned();
    query.append(numbers::format_u32(limit).as_str());
    query.append("&offset=");
    query.append(numbers::format_u32(offset).as_str());
    query.append("&");
    query.append(filter);
    query
}

/// Cursor state of one paginated collection fetch: the records received
/// so far in arrival order, the offset to request next, how many pages
/// arrived, and whether the collection is exhausted.
pub struct DevicePager {
    pub devices: Vec<Device>,
    pub next_offset: u32,
    pub pages_fetched: u32,
    pub finished: bool,
}

impl DevicePager {
    /// A fresh cursor: nothing fetched yet, the first request at offset
    /// zero.
    pub fn new() -> (r: Self)
        ensures
            r.devices@ == Seq::<Device>::empty(),
            r.next_offset == 0,
            r.pages_fetched == 0,
            !r.finished,
    {
        DevicePager { devices: Vec::new(), next_offset: 0, pages_fetched: 0, finished: false }
    }

    /// Take in one fetched page: append its records in arrival order and
    /// follow its cursor. A page without a `next` URL exhausts the
    /// collection; a `next` URL without a readable offset fails the
    /// fetch and leaves the cursor untouched.
    pub fn feed_page(&mut self, page: NetboxDCIMDeviceList) -> (r: Result<(), PagerError>)
        requires
            !old(self).finished,
            old(self).pages_fetched < u32::MAX,
        ensures
            match r {
                Ok(()) => {
                    &&& final(self).devices@ == old(self).devices@ + page.results@
                    &&& final(self).pages_fetched == old(self).pages_fetched + 1
                    &&& final(self).finished == (page.next is None)
                    &&& match page.next {
                        Some(next_url) => spec_extract_offset(next_url@) == Ok::<u32, PagerError>(
                            final(self).next_offset,
                        ),
                        None => final(self).next_offset == old(self).next_offset,
                    }
                },
                Err(e) => {
                    &&& *final(self) == *old(self)
                    &&& page.next matches Some(next_url) && spec_extract_offset(next_url@)
                        == Err::<u32, PagerError>(e)
                },
            },
    {
        match &page.next {
            Some(next_url) => {
                match extract_offset(next_url) {
                    Ok(offset) => {
                        self.next_offset = offset;
                    },
                    Err(e) => {
                        return Err(e);
                    },
                }
            },
            None => {
                self.finished = true;
            },
        }
        let mut results = page.results;
        self.devices.append(&mut results);
        self.pages_fetched = self.pages_fetched + 1;
        Ok(())
    }

    /// The accumulated records, once the collection is exhausted.
    pub fn into_devices(self) -> (r: Vec<Device>)
        requires
            self.finished,
        ensures
            r@ == self.devices@,
    {
        self.devices
    }
}

} // verus!
