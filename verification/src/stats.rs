//! The collection statistics of one fetch cycle.
//!
//! A stats response arrives as entries pairing a metric name with the
//! text of a number. Exactly five metrics are required; each is rounded
//! to three decimal places on construction. A response that lacks one of
//! them, or carries something other than a decimal number, is malformed.

use vstd::prelude::*;
use vstd::string::*;
use crate::dec::{Dec3, parse_dec3, valid_number, spec_milli, spec_dec3, MILLI_LIMIT};

verus! {

/// Why a fetch cycle produced no statistics.
#[derive(Clone, Copy, Debug, PartialEq, Eq, Structural)]
pub enum FetchError {
    /// The stats endpoint could not be reached.
    Network,
    /// The response was not the expected shape, or a required metric was
    /// missing or not a number.
    MalformedResponse,
}

impl FetchError {
    pub open spec fn spec_describe(self) -> Seq<char> {
        match self {
            FetchError::Network => "could not reach the stats endpoint"@,
            FetchError::MalformedResponse => "the stats response was not in the expected shape"@,
        }
    }

    /// A short description of the failure for the cycle log.
    pub fn describe(&self) -> (r: String)
        ensures
            r@ == self.spec_describe(),
    {
        match self {
            FetchError::Network => String::from_str("could not reach the stats endpoint"),
            FetchError::MalformedResponse => String::from_str(
                "the stats response was not in the expected shape",
            ),
        }
    }
}

/// One stats response: metric names paired with the text of their
/// numeric values, in response order.
pub struct ApiResponse {
    pub stats: Vec<(String, String)>,
}

/// The entries as sequences of characters.
pub open spec fn entries_view(v: Seq<(String, String)>) -> Seq<(Seq<char>, Seq<char>)> {
    Seq::new(v.len(), |i: int| (v[i].0@, v[i].1@))
}

/// The value under the first entry with the given name.
pub open spec fn spec_lookup(entries: Seq<(Seq<char>, Seq<char>)>, key: Seq<char>) -> Option<
    Seq<char>,
>
    decreases entries.len(),
{
    if entries.len() == 0 {
        None
    } else if entries[0].0 == key {
        Some(entries[0].1)
    } else {
        spec_lookup(entries.skip(1), key)
    }
}

/// The metric under `key`, parsed and rounded to three decimal places,
/// or `None` when it is absent, not decimal-number text, or out of range.
pub open spec fn spec_metric(entries: Seq<(Seq<char>, Seq<char>)>, key: Seq<char>) -> Option<
    Dec3,
> {
    match spec_lookup(entries, key) {
        None => None,
        Some(txt) => if valid_number(txt) && spec_milli(txt) <= MILLI_LIMIT {
            Some(spec_dec3(txt))
        } else {
            None
        },
    }
}

fn lookup(entries: &Vec<(String, String)>, key: &String) -> (r: Option<String>)
    ensures
        r is Some <==> spec_lookup(entries_view(entries@), key@) is Some,
        r matches Some(v) ==> spec_lookup(entries_view(entries@), key@) == Some(v@),
{
    let ghost all = entries_view(entries@);
    proof {
        assert(all.skip(0) =~= all);
    }
    let mut j: usize = 0;
    while j < entries.len()
        invariant
            j <= entries.len(),
            all == entries_view(entries@),
            spec_lookup(all, key@) == spec_lookup(all.skip(j as int), key@),
        decreases entries.len() - j,
    {
        proof {
            assert(all.skip(j as int)[0] == (entries@[j as int].0@, entries@[j as int].1@));
        }
        if entries[j].0 == *key {
            return Some(entries[j].1.clone());
        }
        proof {
            assert(all.skip(j as int).skip(1) =~= all.skip(j as int + 1));
        }
        j += 1;
    }
    proof {
        assert(all.skip(j as int).len() == 0);
    }
    None
}

/// The five rounded statistics of one fetch cycle.
#[derive(Clone, Copy, Debug, PartialEq, Eq, Structural)]
pub struct CollectionStats {
    pub one_day_volume: Dec3,
    pub seven_day_average_price: Dec3,
    pub market_cap: Dec3,
    pub floor_price: Dec3,
    pub num_owners: Dec3,
}

impl CollectionStats {
    pub open spec fn wf(self) -> bool {
        &&& self.one_day_volume.wf()
        &&& self.seven_day_average_price.wf()
        &&& self.market_cap.wf()
        &&& self.floor_price.wf()
        &&& self.num_owners.wf()
    }

    /// The statistics a response denotes: all five required metrics,
    /// each rounded, or nothing if any is absent or not a number.
    pub open spec fn spec_new(r: ApiResponse) -> Option<CollectionStats> {
        let e = entries_view(r.stats@);
        match (
            spec_metric(e, "one_day_volume"@),
            spec_metric(e, "seven_day_average_price"@),
            spec_metric(e, "market_cap"@),
            spec_metric(e, "floor_price"@),
            spec_metric(e, "num_owners"@),
        ) {
            (Some(odv), Some(sdap), Some(mc), Some(fp), Some(no)) => Some(
                CollectionStats {
                    one_day_volume: odv,
                    seven_day_average_price: sdap,
                    market_cap: mc,
                    floor_price: fp,
                    num_owners: no,
                },
            ),
            _ => None,
        }
    }

    fn metric(entries: &Vec<(String, String)>, key: &str) -> (r: Option<Dec3>)
        ensures
            r == spec_metric(entries_view(entries@), key@),
            r matches Some(d) ==> d.wf(),
    {
        let k = String::from_str(key);
        match lookup(entries, &k) {
            None => None,
            Some(txt) => parse_dec3(txt.as_str()),
        }
    }

    /// Builds the statistics from a response. Construction succeeds if
    /// and only if all five required metrics are present with in-range
    /// decimal-number values; otherwise the response is malformed and
    /// nothing is constructed.
    pub fn new(api_response: ApiResponse) -> (r: Result<CollectionStats, FetchError>)
        ensures
            r is Ok <==> Self::spec_new(api_response) is Some,
            r matches Ok(c) ==> Self::spec_new(api_response) == Some(c) && c.wf(),
            r matches Err(e) ==> e == FetchError::MalformedResponse,
    {
        let odv = Self::metric(&api_response.stats, "one_day_volume");
        let sdap = Self::metric(&api_response.stats, "seven_day_average_price");
        let mc = Self::metric(&api_response.stats, "market_cap");
        let fp = Self::metric(&api_response.stats, "floor_price");
        let no = Self::metric(&api_response.stats, "num_owners");
        match (odv, sdap, mc, fp, no) {
            (Some(a), Some(b), Some(c), Some(d), Some(e)) => Ok(
                CollectionStats {
                    one_day_volume: a,
                    seven_day_average_price: b,
                    market_cap: c,
                    floor_price: d,
                    num_owners: e,
                },
            ),
            _ => Err(FetchError::MalformedResponse),
        }
    }

    /// Interprets a deserialised response body: a body that did not
    /// parse as the expected shape is malformed; otherwise the
    /// statistics are built from its entries.
    pub fn from_response(parsed: Option<ApiResponse>) -> (r: Result<CollectionStats, FetchError>)
        ensures
            parsed is None ==> (r matches Err(e) && e == FetchError::MalformedResponse),
            parsed matches Some(a) ==> {
                &&& r is Ok <==> Self::spec_new(a) is Some
                &&& (r matches Ok(c) ==> Self::spec_new(a) == Some(c) && c.wf())
                &&& (r matches Err(e) ==> e == FetchError::MalformedResponse)
            },
    {
        match parsed {
            None => Err(FetchError::MalformedResponse),
            Some(a) => Self::new(a),
        }
    }
}

} // verus!
