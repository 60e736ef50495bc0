//! One camera: where it is and how to reach it.

use vstd::prelude::*;

use crate::id::{is_random_uuid, Id};
use crate::text::same_text;

verus! {

/// How RTP packets travel.
#[derive(Debug, Clone, Copy, PartialEq, Eq, Structural)]
pub enum Transport {
    /// RTP interleaved over the RTSP TCP connection. Works through NAT, no packet loss.
    Tcp,
    /// RTP over UDP. Lower latency on a LAN, drops reordered packets.
    Udp,
}

impl Default for Transport {
    fn default() -> (transport: Transport)
        ensures
            transport == Transport::Tcp,
    {
        Transport::Tcp
    }
}

#[derive(Debug)]
pub struct Connection {
    pub id: Id,
    pub name: String,
    /// Full RTSP URL, without credentials (those live in `username`/`password`).
    pub url: String,
    pub username: Option<String>,
    pub password: Option<String>,
    pub transport: Transport,
}

/// The contents of a [`Connection`].
#[verifier::ext_equal]
pub struct ConnectionSpec {
    pub id: Id,
    pub name: Seq<char>,
    pub url: Seq<char>,
    pub username: Option<Seq<char>>,
    pub password: Option<Seq<char>>,
    pub transport: Transport,
}

/// The characters of an optional text.
pub open spec fn optional_text(text: Option<String>) -> Option<Seq<char>> {
    match text {
        Some(t) => Some(t@),
        None => None,
    }
}

impl View for Connection {
    type V = ConnectionSpec;

    open spec fn view(&self) -> ConnectionSpec {
        ConnectionSpec {
            id: self.id,
            name: self.name@,
            url: self.url@,
            username: optional_text(self.username),
            password: optional_text(self.password),
            transport: self.transport,
        }
    }
}

impl Clone for Connection {
    fn clone(&self) -> (copy: Connection)
        ensures
            copy == *self,
    {
        Connection {
            id: self.id,
            name: self.name.clone(),
            url: self.url.clone(),
            username: self.username.clone(),
            password: self.password.clone(),
            transport: self.transport,
        }
    }
}

impl ConnectionSpec {
    /// The user name and password to log in with. A connection without a user name,
    /// or with an empty one, is anonymous; a missing password counts as empty.
    pub open spec fn credentials(self) -> Option<(Seq<char>, Seq<char>)> {
        match self.username {
            Some(user) if user.len() > 0 => Some(
                (
                    user,
                    match self.password {
                        Some(password) => password,
                        None => Seq::empty(),
                    },
                ),
            ),
            _ => None,
        }
    }
}

/// Whether two optional texts hold the same characters.
fn same_optional(a: &Option<String>, b: &Option<String>) -> (same: bool)
    ensures
        same == (optional_text(*a) == optional_text(*b)),
{
    match (a, b) {
        (Some(x), Some(y)) => same_text(x.as_str(), y.as_str()),
        (None, None) => true,
        _ => false,
    }
}

impl Connection {
    /// Whether two connections agree in every field.
    pub(crate) fn same(&self, other: &Connection) -> (same: bool)
        ensures
            same == (self@ == other@),
    {
        self.id == other.id && same_text(self.name.as_str(), other.name.as_str()) && same_text(
            self.url.as_str(),
            other.url.as_str(),
        ) && same_optional(&self.username, &other.username) && same_optional(
            &self.password,
            &other.password,
        ) && self.transport == other.transport
    }

    /// A connection with a fresh id, without credentials, over TCP.
    pub fn new(name: &str, url: &str) -> (connection: Connection)
        ensures
            is_random_uuid(connection.id.bits),
            connection@ == (ConnectionSpec {
                id: connection.id,
                name: name@,
                url: url@,
                username: None,
                password: None,
                transport: Transport::Tcp,
            }),
    {
        Connection {
            id: Id::new_v4(),
            name: name.to_owned(),
            url: url.to_owned(),
            username: None,
            password: None,
            transport: Transport::default(),
        }
    }

    /// Credentials are optional; a camera with anonymous access needs none.
    pub fn credentials(&self) -> (pair: Option<(String, String)>)
        ensures
            (match pair {
                Some(p) => Some((p.0@, p.1@)),
                None => None,
            }) == self@.credentials(),
    {
        match &self.username {
            Some(user) => {
                if user.as_str().is_empty() {
                    None
                } else {
                    let password = match &self.password {
                        Some(password) => password.clone(),
                        None => String::new(),
                    };
                    Some((user.clone(), password))
                }
            },
            None => None,
        }
    }
}

} // verus!
