use vstd::prelude::*;

verus! {

/// Settings of the service.
#[derive(Debug)]
pub struct Config {
    pub api_key: String,
    pub data_load_uri: String,
    pub save_file: String,
    pub save_timeout: u64,
    pub host_address: String,
    pub host_port: u16,
}

impl Default for Config {
    fn default() -> (r: Config)
        ensures
            r.data_load_uri@ == "https://api.airtable.com/v0/appWPQd75Wh8IVPa0/Table%201?view=Grid%20view"@,
            r.api_key@ == ""@,
            r.save_file@ == "president_votes_state.data"@,
            r.host_address@ == "localhost"@,
            r.host_port == 8080,
            r.save_timeout == 30,
    {
        Config {
            data_load_uri: "https://api.airtable.com/v0/appWPQd75Wh8IVPa0/Table%201?view=Grid%20view".to_owned(),
            api_key: "".to_owned(),
            save_file: "president_votes_state.data".to_owned(),
            host_address: "localhost".to_owned(),
            host_port: 8080,
            save_timeout: 30,
        }
    }
}

} // verus!
