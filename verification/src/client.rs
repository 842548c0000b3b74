//! The client side of a Gopher exchange: a server address and the request
//! line sent for a selector. Opening the connection and moving bytes is the
//! embedding program's job; this module only builds the bytes to send.

use vstd::prelude::*;

verus! {

/// A Gopher server address. The protocol is connectionless across requests:
/// each fetch opens a fresh transport connection, so a `Gopher` holds only
/// the host name and port.
pub struct Gopher {
    host: String,
    port: u16,
}

impl Gopher {
    /// The host name this client connects to.
    pub closed spec fn spec_host(self) -> Seq<char> {
        self.host@
    }

    /// The port this client connects to.
    pub closed spec fn spec_port(self) -> u16 {
        self.port
    }

    /// Constructs a new Gopher client given some server's address.
    pub fn new(host: &str, port: u16) -> (g: Gopher)
        ensures
            g.spec_host() == host@,
            g.spec_port() == port,
    {
        Gopher { host: host.to_owned(), port }
    }

    /// The host name, for the embedding program to open the connection with.
    pub fn host(&self) -> (h: &str)
        ensures
            h@ == self.spec_host(),
    {
        self.host.as_str()
    }

    /// The port, for the embedding program to open the connection with.
    pub fn port(&self) -> (p: u16)
        ensures
            p == self.spec_port(),
    {
        self.port
    }
}

/// The request line for a selector: the selector bytes followed by CRLF,
/// sent once per connection. The root listing is requested with the empty
/// selector.
pub fn request_line(selector: &[u8]) -> (line: Vec<u8>)
    ensures
        line@ == selector@ + seq![13u8, 10u8],
{
    let mut line: Vec<u8> = Vec::new();
    let mut i: usize = 0;
    while i < selector.len()
        invariant
            i <= selector@.len(),
            line@ == selector@.subrange(0, i as int),
        decreases selector@.len() - i,
    {
        line.push(selector[i]);
        i += 1;
    }
    line.push(13u8);
    line.push(10u8);
    proof {
        assert(line@ == selector@ + seq![13u8, 10u8]) by {
            assert(selector@.subrange(0, selector@.len() as int) == selector@);
        }
    }
    line
}

} // verus!
