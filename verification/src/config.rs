use vstd::prelude::*;

verus! {

/// Persisted user preferences: the core only reads them as parameters.
#[derive(Clone, Debug)]
pub struct Config {
    pub defaults: DefaultConfig,
    /// Named profiles, by profile name.
    pub profiles: Vec<(String, ProfileConfig)>,
    /// Group-name aliases, alias to full name.
    pub aliases: Vec<(String, String)>,
}

/// The default settings a query runs under when none are given.
#[derive(Clone, Debug)]
pub struct DefaultConfig {
    pub region: String,
    pub output: String,
    pub max_events: usize,
}

/// One named credential/region profile.
#[derive(Clone, Debug)]
pub struct ProfileConfig {
    pub assume_role: Option<String>,
    pub region: Option<String>,
}

pub fn default_region() -> (r: String)
    ensures
        r@ == "us-east-1"@,
{
    String::from_str("us-east-1")
}

pub fn default_output() -> (r: String)
    ensures
        r@ == "colored"@,
{
    String::from_str("colored")
}

pub fn default_max_events() -> (r: usize)
    ensures
        r == 1000,
{
    1000
}

impl Default for Config {
    /// The configuration a fresh installation runs under.
    fn default() -> (r: Config)
        ensures
            r.defaults.region@ == "us-east-1"@,
            r.defaults.output@ == "colored"@,
            r.defaults.max_events == 1000,
            r.profiles@.len() == 0,
            r.aliases@.len() == 0,
    {
        Config {
            defaults: DefaultConfig {
                region: default_region(),
                output: default_output(),
                max_events: default_max_events(),
            },
            profiles: Vec::new(),
            aliases: Vec::new(),
        }
    }
}

} // verus!
