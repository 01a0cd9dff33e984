//! The hysteria server's traffic counters.
use vstd::prelude::*;

verus! {

#[derive(Debug)]
pub struct Config {
    pub secret: String,
    pub url: String,
}

/// What a user sent and received.
#[derive(Debug, Clone, Copy, PartialEq, Eq, Structural)]
pub struct Traffic {
    pub tx: u64,
    pub rx: u64,
}

/// The server's address, and the secret that it asks for.
#[derive(Debug)]
pub struct Source {
    secret: String,
    url: String,
}

/// A request to the server.
#[derive(Debug)]
pub struct Request {
    pub url: String,
    /// The value of the header `Authorization`.
    pub authorization: String,
}

/// The address to ask for the counters, which start afresh with `reset`.
pub open spec fn traffic_url(url: Seq<char>, reset: bool) -> Seq<char> {
    if reset {
        url + "?clear=1"@
    } else {
        url
    }
}

impl Source {
    pub closed spec fn secret(self) -> Seq<char> {
        self.secret@
    }

    pub closed spec fn url(self) -> Seq<char> {
        self.url@
    }

    pub fn new(config: Config) -> (source: Source)
        ensures
            source.secret() == config.secret@,
            source.url() == config.url@,
    {
        Source { secret: config.secret, url: config.url }
    }

    /// The request for each user's traffic.
    pub fn traffic(&self, reset: bool) -> (request: Request)
        ensures
            request.url@ == traffic_url(self.url(), reset),
            request.url@ == self.url() + if reset {
                "?clear=1"@
            } else {
                Seq::empty()
            },
            request.authorization@ == self.secret(),
    {
        let mut url = self.url.clone();
        if reset {
            url.append("?clear=1");
        }
        Request { url, authorization: self.secret.clone() }
    }
}

/// The counters are asked for at the configured address; to have them start afresh, a parameter is
/// added.
pub proof fn law_traffic_url(url: Seq<char>)
    ensures
        traffic_url(url, false) == url,
        traffic_url(url, true) == url + "?clear=1"@,
{
}

} // verus!
