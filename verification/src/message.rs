//! The announcement text.
//!
//! The message is a fixed template over the five statistics, in the
//! order floor price, one-day volume, market cap, seven-day average
//! price, owner count. Formatting is pure: the text is a function of the
//! statistics value alone.

use vstd::prelude::*;
use vstd::string::*;
use crate::stats::CollectionStats;

verus! {

/// The text of the announcement for the given statistics.
pub open spec fn spec_message(stats: CollectionStats) -> Seq<char> {
    "🤖 The current floor price is "@ + stats.floor_price.spec_text()
        + " ETH, with a daily volume of "@ + stats.one_day_volume.spec_text()
        + " ETH and a market cap of "@ + stats.market_cap.spec_text()
        + " ETH.\n\nThe weekly average sell price is "@
        + stats.seven_day_average_price.spec_text() + " ETH, and there are currently "@
        + stats.num_owners.spec_text() + " holders."@
}

/// Renders the announcement for the given statistics. Total, and pure:
/// equal statistics yield the identical text.
pub fn format_message(stats: CollectionStats) -> (r: String)
    ensures
        r@ == spec_message(stats),
{
    let mut out = String::new();
    out.append("🤖 The current floor price is ");
    let floor = stats.floor_price.to_text();
    out.append(floor.as_str());
    out.append(" ETH, with a daily volume of ");
    let volume = stats.one_day_volume.to_text();
    out.append(volume.as_str());
    out.append(" ETH and a market cap of ");
    let cap = stats.market_cap.to_text();
    out.append(cap.as_str());
    out.append(" ETH.\n\nThe weekly average sell price is ");
    let average = stats.seven_day_average_price.to_text();
    out.append(average.as_str());
    out.append(" ETH, and there are currently ");
    let owners = stats.num_owners.to_text();
    out.append(owners.as_str());
    out.append(" holders.");
    proof {
        assert(out@ =~= spec_message(stats));
    }
    out
}

/// Formatting is deterministic: the message text depends on nothing but
/// the statistics value, so equal statistics always format to the
/// byte-identical text.
pub proof fn lemma_format_message_pure(a: CollectionStats, b: CollectionStats)
    requires
        a == b,
    ensures
        spec_message(a) == spec_message(b),
{
}

} // verus!
