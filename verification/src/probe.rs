//! Checking a camera without the window.

use crate::connection::{optional_text, Connection, ConnectionSpec, Transport};
use crate::id::is_random_uuid;
use crate::text::{decimal, decimal_text, same_text};
use vstd::prelude::*;
use vstd::string::StringExecFns;

verus! {

/// Seconds after which a camera that shows nothing is given up.
pub const PROBE_LIMIT_SECS: u64 = 20;

/// Seconds of video that the rate is measured over.
pub const PROBE_SAMPLE_SECS: u64 = 8;

/// One of the arguments, if there are so many.
pub open spec fn argument(args: Seq<String>, i: int) -> Option<Seq<char>> {
    if i < args.len() {
        Some(args[i]@)
    } else {
        None
    }
}

/// The camera that the arguments name: its URL, then a user name and a password if there are
/// any. Without a URL there is nothing to check.
pub fn probe_connection(args: &[String]) -> (connection: Option<Connection>)
    ensures
        connection is Some <==> args@.len() > 0,
        connection matches Some(c) ==> {
            &&& is_random_uuid(c.id.bits)
            &&& c@ == (ConnectionSpec {
                id: c.id,
                name: "probe"@,
                url: args@[0]@,
                username: argument(args@, 1),
                password: argument(args@, 2),
                transport: Transport::Tcp,
            })
        },
{
    if args.len() == 0 {
        return None;
    }
    let mut connection = Connection::new("probe", args[0].as_str());
    if args.len() > 1 {
        connection.username = Some(args[1].clone());
    }
    if args.len() > 2 {
        connection.password = Some(args[2].clone());
    }
    Some(connection)
}

/// What has been seen of a camera.
pub struct Probe {
    pub last_status: String,
    pub seen_frame: bool,
}

/// The contents of a [`Probe`].
#[verifier::ext_equal]
pub struct ProbeSpec {
    pub last_status: Seq<char>,
    pub seen_frame: bool,
}

impl View for Probe {
    type V = ProbeSpec;

    open spec fn view(&self) -> ProbeSpec {
        ProbeSpec { last_status: self.last_status@, seen_frame: self.seen_frame }
    }
}

impl Probe {
    /// Before anything was seen.
    pub fn new() -> (probe: Probe)
        ensures
            probe@ == (ProbeSpec { last_status: Seq::empty(), seen_frame: false }),
    {
        Probe { last_status: String::new(), seen_frame: false }
    }

    /// The line to print for a status, if it is not the last one.
    pub fn status_line(&mut self, status: &str) -> (line: Option<String>)
        ensures
            final(self)@ == (ProbeSpec { last_status: status@, ..old(self)@ }),
            optional_text(line) == if status@ == old(self)@.last_status {
                None
            } else {
                Some("status: "@ + status@)
            },
    {
        if same_text(self.last_status.as_str(), status) {
            return None;
        }
        self.last_status = status.to_owned();
        Some("status: ".to_owned().concat(status))
    }

    /// The line to print for a frame, if it is the first.
    pub fn frame_line(&mut self, width: u32, height: u32) -> (line: Option<String>)
        ensures
            final(self)@ == (ProbeSpec { seen_frame: true, ..old(self)@ }),
            optional_text(line) == if old(self)@.seen_frame {
                None
            } else {
                Some(
                    "first frame: "@ + decimal(width as int) + "x"@ + decimal(height as int),
                )
            },
    {
        if self.seen_frame {
            return None;
        }
        self.seen_frame = true;
        let wide = decimal_text(width as u128);
        let high = decimal_text(height as u128);
        Some(
            "first frame: ".to_owned().concat(wide.as_str()).concat("x").concat(high.as_str()),
        )
    }

    /// The code to exit with: nothing was seen, or something was.
    pub fn exit_code(&self) -> (code: i32)
        ensures
            code == if self@.seen_frame {
                0i32
            } else {
                1i32
            },
    {
        if self.seen_frame {
            0
        } else {
            1
        }
    }
}

} // verus!
