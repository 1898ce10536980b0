//! Process configuration. The surrounding process fills this from its
//! environment; `Default` gives the documented fallbacks.

use vstd::prelude::*;

verus! {

#[derive(Debug, Clone)]
pub struct Config {
    pub database_url: String,
    pub host: String,
    pub port: u16,
    /// Default base currency for responses when the client names none.
    /// Internal storage always uses the fixed pivot currency.
    pub default_api_base: String,
    /// Seed the store from bundled files on startup when it is empty.
    pub seed_on_startup: bool,
    pub sync_on_startup: bool,
    pub sync_cron: String,
}

impl Default for Config {
    fn default() -> (r: Config)
        ensures
            r.database_url@ == "sqlite:currency_rates.db?mode=rwc"@,
            r.host@ == "0.0.0.0"@,
            r.port == 8080,
            r.default_api_base@ == "USD"@,
            r.seed_on_startup,
            r.sync_on_startup,
            r.sync_cron@ == "0 0 16 * * *"@,
    {
        Config {
            database_url: String::from_str("sqlite:currency_rates.db?mode=rwc"),
            host: String::from_str("0.0.0.0"),
            port: 8080,
            default_api_base: String::from_str("USD"),
            seed_on_startup: true,
            sync_on_startup: true,
            sync_cron: String::from_str("0 0 16 * * *"),
        }
    }
}

} // verus!
