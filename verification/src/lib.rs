//! A small library for a daily marketplace-stats bot: it turns the numeric
//! text of a collection-stats response into fixed-point decimal values
//! rounded to three decimal places, assembles the announcement message, and
//! decides what each cycle of the bot should do.

pub mod bot;
pub mod dec;
pub mod message;
pub mod stats;
