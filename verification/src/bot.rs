//! Startup credentials and the per-cycle decisions of the bot.
//!
//! The scheduler around the library sleeps a fixed interval, fetches the
//! statistics, and hands the outcome to `plan_cycle`; the decision is
//! best-effort and no-retry: a failed cycle is logged and skipped, never
//! raised, and the loop always goes on to its next tick.

use vstd::prelude::*;
use vstd::string::*;
use crate::stats::{CollectionStats, FetchError};
use crate::message::{spec_message, format_message};

verus! {

/// The four posting credentials, immutable for the process lifetime.
pub struct Credentials {
    pub consumer_key: String,
    pub consumer_secret: String,
    pub access_token: String,
    pub access_token_secret: String,
}

/// Which required environment variable was missing at startup.
#[derive(Clone, Copy, Debug, PartialEq, Eq, Structural)]
pub enum CredentialError {
    MissingConsumerKey,
    MissingConsumerSecret,
    MissingAccessToken,
    MissingAccessTokenSecret,
}

impl CredentialError {
    pub open spec fn spec_message(self) -> Seq<char> {
        match self {
            CredentialError::MissingConsumerKey => "Expected TWITTER_CONSUMER_KEY in environment"@,
            CredentialError::MissingConsumerSecret => "Expected TWITTER_CONSUMER_SECRET in environment"@,
            CredentialError::MissingAccessToken => "Expected TWITTER_ACCESS_TOKEN in environment"@,
            CredentialError::MissingAccessTokenSecret => "Expected TWITTER_ACCESS_TOKEN_SECRET in environment"@,
        }
    }

    /// The startup failure message, naming the missing variable.
    pub fn message(&self) -> (r: String)
        ensures
            r@ == self.spec_message(),
    {
        match self {
            CredentialError::MissingConsumerKey => String::from_str(
                "Expected TWITTER_CONSUMER_KEY in environment",
            ),
            CredentialError::MissingConsumerSecret => String::from_str(
                "Expected TWITTER_CONSUMER_SECRET in environment",
            ),
            CredentialError::MissingAccessToken => String::from_str(
                "Expected TWITTER_ACCESS_TOKEN in environment",
            ),
            CredentialError::MissingAccessTokenSecret => String::from_str(
                "Expected TWITTER_ACCESS_TOKEN_SECRET in environment",
            ),
        }
    }
}

impl Credentials {
    /// Builds the credentials from the four environment values. Fails on
    /// the first missing value, in the order consumer key, consumer
    /// secret, access token, access token secret; succeeds if and only
    /// if all four are present.
    pub fn new(
        consumer_key: Option<String>,
        consumer_secret: Option<String>,
        access_token: Option<String>,
        access_token_secret: Option<String>,
    ) -> (r: Result<Credentials, CredentialError>)
        ensures
            r is Ok <==> consumer_key is Some && consumer_secret is Some && access_token is Some
                && access_token_secret is Some,
            r matches Ok(c) ==> consumer_key == Some(c.consumer_key) && consumer_secret == Some(
                c.consumer_secret,
            ) && access_token == Some(c.access_token) && access_token_secret == Some(
                c.access_token_secret,
            ),
            consumer_key is None ==> r == Result::<Credentials, CredentialError>::Err(
                CredentialError::MissingConsumerKey,
            ),
            consumer_key is Some && consumer_secret is None ==> r == Result::<
                Credentials,
                CredentialError,
            >::Err(CredentialError::MissingConsumerSecret),
            consumer_key is Some && consumer_secret is Some && access_token is None ==> r
                == Result::<Credentials, CredentialError>::Err(
                CredentialError::MissingAccessToken,
            ),
            consumer_key is Some && consumer_secret is Some && access_token is Some
                && access_token_secret is None ==> r == Result::<Credentials, CredentialError>::Err(
                CredentialError::MissingAccessTokenSecret,
            ),
    {
        let ck = match consumer_key {
            Some(v) => v,
            None => {
                return Err(CredentialError::MissingConsumerKey);
            },
        };
        let cs = match consumer_secret {
            Some(v) => v,
            None => {
                return Err(CredentialError::MissingConsumerSecret);
            },
        };
        let at = match access_token {
            Some(v) => v,
            None => {
                return Err(CredentialError::MissingAccessToken);
            },
        };
        let ats = match access_token_secret {
            Some(v) => v,
            None => {
                return Err(CredentialError::MissingAccessTokenSecret);
            },
        };
        Ok(
            Credentials {
                consumer_key: ck,
                consumer_secret: cs,
                access_token: at,
                access_token_secret: ats,
            },
        )
    }
}

/// What one scheduler tick does after the fetch: post the formatted
/// message, or skip this cycle and write the error line to the log.
pub enum CycleAction {
    Post(String),
    SkipAndLog(String),
}

/// The line the bot logs for a failed fetch.
pub open spec fn spec_error_line(e: FetchError) -> Seq<char> {
    "Error: "@ + e.spec_describe()
}

/// Decides one cycle from the fetch outcome: fetched statistics are
/// formatted and posted; a failed fetch is logged and the cycle skipped.
/// Either way the decision is an action for this tick alone — nothing is
/// retried and nothing stops the loop.
pub fn plan_cycle(fetch: Result<CollectionStats, FetchError>) -> (a: CycleAction)
    ensures
        fetch matches Ok(stats) ==> a matches CycleAction::Post(m) && m@ == spec_message(stats),
        fetch matches Err(e) ==> a matches CycleAction::SkipAndLog(l) && l@ == spec_error_line(e),
{
    match fetch {
        Ok(stats) => CycleAction::Post(format_message(stats)),
        Err(e) => {
            let mut line = String::from_str("Error: ");
            let what = e.describe();
            line.append(what.as_str());
            CycleAction::SkipAndLog(line)
        },
    }
}

/// Decides what to log after the posting call: a failure is logged with
/// the error prefix and swallowed, never propagated; success logs
/// nothing. The cycle ends normally in both cases.
pub fn plan_after_post(post_error: Option<String>) -> (log: Option<String>)
    ensures
        post_error is None ==> log is None,
        post_error matches Some(e) ==> log matches Some(l) && l@ == "Error: "@ + e@,
{
    match post_error {
        None => None,
        Some(e) => {
            let mut line = String::from_str("Error: ");
            line.append(e.as_str());
            Some(line)
        },
    }
}

} // verus!
