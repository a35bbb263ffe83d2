//! The client's configuration: connection coordinates, identity, and
//! recipe templates. Loading the file is the embedding application's job;
//! this module holds the records and their defaults.

use vstd::prelude::*;

verus! {

use vstd::string::StringExecFns;
use std::collections::HashMap;

/// Where the master is and how to authenticate against it.
pub struct Master {
    pub addr: Option<String>,
    pub port: Option<i32>,
    pub authkey: Option<String>,
    pub fetch_url: Option<String>,
}

impl Master {
    /// A master section from its raw fields.
    pub fn new(
        addr: Option<String>,
        port: Option<i32>,
        authkey: Option<String>,
        fetch_url: Option<String>,
    ) -> (r: Master)
        ensures
            r.addr == addr,
            r.port == port,
            r.authkey == authkey,
            r.fetch_url == fetch_url,
    {
        Master { addr, port, authkey, fetch_url }
    }

    /// The address, defaulting to the local host.
    pub fn get_addr(&self) -> (r: String)
        ensures
            match self.addr {
                Some(a) => r@ == a@,
                None => r@ == "localhost"@,
            },
    {
        match &self.addr {
            Some(a) => a.clone(),
            None => String::from_str("localhost"),
        }
    }

    /// The port, defaulting to 27015.
    pub fn get_port(&self) -> (r: i32)
        ensures
            match self.port {
                Some(p) => r == p,
                None => r == 27015,
            },
    {
        match self.port {
            Some(p) => p,
            None => 27015,
        }
    }

    /// The credential, defaulting to none at all (the empty string).
    pub fn get_authkey(&self) -> (r: String)
        ensures
            match self.authkey {
                Some(a) => r@ == a@,
                None => r@.len() == 0,
            },
    {
        match &self.authkey {
            Some(a) => a.clone(),
            None => String::new(),
        }
    }

    /// The package download location, defaulting to the empty string.
    pub fn get_fetch_url(&self) -> (r: String)
        ensures
            match self.fetch_url {
                Some(a) => r@ == a@,
                None => r@.len() == 0,
            },
    {
        match &self.fetch_url {
            Some(a) => a.clone(),
            None => String::new(),
        }
    }
}

impl Default for Master {
    /// The written-out defaults of a fresh configuration file.
    fn default() -> (r: Master)
        ensures
            r.addr matches Some(a) && a@ == "localhost"@,
            r.port == Some(27015i32),
            r.authkey matches Some(k) && k@.len() == 0,
            r.fetch_url matches Some(u) && u@ == "https://localhost"@,
    {
        Master {
            addr: Some(String::from_str("localhost")),
            port: Some(27015),
            authkey: Some(String::new()),
            fetch_url: Some(String::from_str("https://localhost")),
        }
    }
}

/// Who this client is.
pub struct Client {
    pub name: Option<String>,
    pub client_type: Option<String>,
    pub loglevel: Option<String>,
    pub editor: Option<String>,
    pub protver: Option<u16>,
}

impl Client {
    /// The machine name, with its default.
    pub fn get_name(&self) -> (r: String)
        ensures
            match self.name {
                Some(a) => r@ == a@,
                None => r@ == "a-rranch-client"@,
            },
    {
        match &self.name {
            Some(a) => a.clone(),
            None => String::from_str("a-rranch-client"),
        }
    }

    /// The machine type, defaulting to a controller.
    pub fn get_type(&self) -> (r: String)
        ensures
            match self.client_type {
                Some(a) => r@ == a@,
                None => r@ == "CONTROLLER"@,
            },
    {
        match &self.client_type {
            Some(a) => a.clone(),
            None => String::from_str("CONTROLLER"),
        }
    }

    /// The log level, with its default.
    pub fn get_loglevel(&self) -> (r: String)
        ensures
            match self.loglevel {
                Some(a) => r@ == a@,
                None => r@ == "INFO"@,
            },
    {
        match &self.loglevel {
            Some(a) => a.clone(),
            None => String::from_str("INFO"),
        }
    }

    /// The editor, with its default.
    pub fn get_editor(&self) -> (r: String)
        ensures
            match self.editor {
                Some(a) => r@ == a@,
                None => r@ == "vim"@,
            },
    {
        match &self.editor {
            Some(a) => a.clone(),
            None => String::from_str("vim"),
        }
    }

    /// The protocol version, defaulting to zero.
    pub fn get_protver(&self) -> (r: u16)
        ensures
            match self.protver {
                Some(p) => r == p,
                None => r == 0,
            },
    {
        match self.protver {
            Some(p) => p,
            None => 0,
        }
    }
}

impl Default for Client {
    /// The written-out defaults of a fresh configuration file.
    fn default() -> (r: Client)
        ensures
            r.name matches Some(a) && a@ == "a-rranch-client"@,
            r.client_type matches Some(a) && a@ == "CONTROLLER"@,
            r.loglevel matches Some(a) && a@ == "INFO"@,
            r.editor matches Some(a) && a@ == "vim"@,
            r.protver is None,
    {
        Client {
            name: Some(String::from_str("a-rranch-client")),
            client_type: Some(String::from_str("CONTROLLER")),
            loglevel: Some(String::from_str("INFO")),
            editor: Some(String::from_str("vim")),
            protver: None,
        }
    }
}

/// Recipe templates by name, as the configuration file carries them.
pub struct Templates {
    pub templates: Option<HashMap<String, Vec<String>>>,
}

impl Templates {
    /// The templates, or none at all.
    pub fn get_templates(&self) -> (r: HashMap<String, Vec<String>>)
        ensures
            self.templates is None ==> r@ == Map::<String, Vec<String>>::empty(),
    {
        match &self.templates {
            Some(m) => m.clone(),
            None => HashMap::new(),
        }
    }
}

/// The whole configuration: the master and the client sections.
pub struct Config {
    pub master: Option<Master>,
    pub client: Option<Client>,
}

impl Config {
    /// The master section, written-out defaults standing in for an absent
    /// one.
    pub fn get_master(&self) -> (r: Master)
        ensures
            match self.master {
                Some(m) => r.addr == m.addr && r.port == m.port && r.authkey == m.authkey
                    && r.fetch_url == m.fetch_url,
                None => r.addr matches Some(a) && a@ == "localhost"@ && r.port == Some(27015i32)
                    && (r.authkey matches Some(k) && k@.len() == 0) && (r.fetch_url matches Some(
                    u,
                ) && u@ == "https://localhost"@),
            },
    {
        match &self.master {
            Some(m) => Master {
                addr: clone_opt(&m.addr),
                port: m.port,
                authkey: clone_opt(&m.authkey),
                fetch_url: clone_opt(&m.fetch_url),
            },
            None => Master::default(),
        }
    }

    /// The client section, written-out defaults standing in for an absent
    /// one.
    pub fn get_client(&self) -> (r: Client)
        ensures
            match self.client {
                Some(c) => r.name == c.name && r.client_type == c.client_type && r.loglevel
                    == c.loglevel && r.editor == c.editor && r.protver == c.protver,
                None => (r.name matches Some(a) && a@ == "a-rranch-client"@) && (r.client_type
                    matches Some(a) && a@ == "CONTROLLER"@) && (r.loglevel matches Some(a) && a@
                    == "INFO"@) && (r.editor matches Some(a) && a@ == "vim"@) && r.protver
                    is None,
            },
    {
        match &self.client {
            Some(c) => Client {
                name: clone_opt(&c.name),
                client_type: clone_opt(&c.client_type),
                loglevel: clone_opt(&c.loglevel),
                editor: clone_opt(&c.editor),
                protver: c.protver,
            },
            None => Client::default(),
        }
    }
}

/// Copies an optional string.
fn clone_opt(v: &Option<String>) -> (r: Option<String>)
    ensures
        r == v,
{
    match v {
        Some(s) => Some(s.clone()),
        None => None,
    }
}

} // verus!
