//! The settings the bot starts with.
use vstd::prelude::*;

verus! {

/// The settings the bot starts with.
pub struct Config {
    pub discord_token: String,
    pub database_url: String,
}

/// The database used when none is given.
pub open spec fn default_database_url() -> Seq<char> {
    "sqlite://session_scheduler.sqlite"@
}

impl Config {
    /// The settings from the values of `DISCORD_TOKEN` and `DATABASE_URL`:
    /// the token is required, the database has a default.
    pub fn from_values(discord_token: Option<String>, database_url: Option<String>) -> (res: Result<Config, String>)
        ensures
            discord_token is None ==> res is Err && res->Err_0@ == "DISCORD_TOKEN is missing from environment"@,
            discord_token is Some ==> res is Ok && res->Ok_0.discord_token@ == discord_token->Some_0@,
            res is Ok ==> res->Ok_0.database_url@ == match database_url {
                Some(url) => url@,
                None => default_database_url(),
            },
    {
        let discord_token = match discord_token {
            Some(token) => token,
            None => {
                return Err(String::from_str("DISCORD_TOKEN is missing from environment"));
            },
        };
        let database_url = match database_url {
            Some(url) => url,
            None => String::from_str("sqlite://session_scheduler.sqlite"),
        };
        Ok(Config { discord_token, database_url })
    }
}

} // verus!
