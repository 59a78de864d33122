//! The write client: where points go, what a write request holds, and how
//! the answer of the server is classified. Sending the request is left to
//! the caller's HTTP transport.

use vstd::prelude::*;
use vstd::utf8::{decode_utf8, valid_utf8};
use crate::line_protocol::{encode, line_serialization, DataPoint, EncodeError};
use crate::text::{digits, push_digits};

verus! {

/// The content type of a write request.
pub const CONTENT_TYPE: &'static str = "application/x-www-form-urlencoded";

/// How long a write request may take, in seconds.
pub const WRITE_TIMEOUT_SECS: u64 = 10;

/// The HTTP status with which the server acknowledges a write.
pub const STATUS_NO_CONTENT: u16 = 204;

/// The connection target of a client: host, port, database, optional
/// credentials and whether TLS is used.
pub struct AfluenciaClient {
    host: String,
    database: String,
    port: u32,
    user: Option<String>,
    password: Option<String>,
    use_tls: bool,
}

/// A client as mathematical values.
pub struct ClientView {
    pub host: Seq<char>,
    pub database: Seq<char>,
    pub port: u32,
    pub user: Option<Seq<char>>,
    pub password: Option<Seq<char>>,
    pub use_tls: bool,
}

/// The view of an optional string.
pub open spec fn opt_view(o: Option<String>) -> Option<Seq<char>> {
    match o {
        Some(s) => Some(s@),
        None => None,
    }
}

impl View for AfluenciaClient {
    type V = ClientView;

    closed spec fn view(&self) -> ClientView {
        ClientView {
            host: self.host@,
            database: self.database@,
            port: self.port,
            user: opt_view(self.user),
            password: opt_view(self.password),
            use_tls: self.use_tls,
        }
    }
}

/// The scheme of the write endpoint.
pub open spec fn scheme(use_tls: bool) -> Seq<char> {
    if use_tls {
        "https://"@
    } else {
        "http://"@
    }
}

/// A query parameter (`prefix` is `&name=`) when a value is set, else
/// nothing.
pub open spec fn credential_param(prefix: Seq<char>, value: Option<Seq<char>>) -> Seq<char> {
    match value {
        Some(v) => prefix + v,
        None => Seq::empty(),
    }
}

/// The write endpoint:
/// `scheme://host:port/write?db=database[&u=user][&p=password]`.
pub open spec fn write_url(c: ClientView) -> Seq<char> {
    scheme(c.use_tls) + c.host + ":"@ + digits(c.port as nat) + "/write?db="@ + c.database
        + credential_param("&u="@, c.user) + credential_param("&p="@, c.password)
}

/// A write request ready to be sent: a POST of `body` to `url`, with the
/// content type [`CONTENT_TYPE`].
pub struct WriteRequest {
    pub url: String,
    pub body: String,
}

/// A completed exchange with the server: its status and its body.
pub struct AfluenciaResponse {
    pub status: u16,
    pub body: String,
}

/// Why a write did not succeed.
pub enum WriteError {
    /// The point could not be encoded; nothing was sent.
    Encoding(EncodeError),
    /// The request did not complete (name resolution, connection, timeout).
    Transport,
    /// The server answered with a status other than 204.
    Rejected(AfluenciaResponse),
    /// The server answered with a body that is not UTF-8.
    UndecodableBody { status: u16 },
}

/// Relies on `String::from_utf8`: it accepts exactly the well-formed UTF-8
/// byte sequences and yields the characters they encode.
#[verifier::external_body]
fn utf8_to_string(bytes: Vec<u8>) -> (r: Option<String>)
    ensures
        r is Some <==> valid_utf8(bytes@),
        r matches Some(s) ==> s@ == decode_utf8(bytes@),
{
    String::from_utf8(bytes).ok()
}

/// Classifies the answer of the server to a write: success exactly on
/// status 204, a rejection carrying the status and body on any other
/// status, and a decoding failure when the body is not UTF-8.
pub fn classify_response(status: u16, body: Vec<u8>) -> (r: Result<AfluenciaResponse, WriteError>)
    ensures
        !valid_utf8(body@) ==> (r matches Err(WriteError::UndecodableBody { status: s }) && s
            == status),
        valid_utf8(body@) && status == 204 ==> (r matches Ok(resp) && resp.status == status
            && resp.body@ == decode_utf8(body@)),
        valid_utf8(body@) && status != 204 ==> (r matches Err(WriteError::Rejected(resp))
            && resp.status == status && resp.body@ == decode_utf8(body@)),
{
    match utf8_to_string(body) {
        None => Err(WriteError::UndecodableBody { status }),
        Some(text) => {
            let response = AfluenciaResponse { status, body: text };
            if status == STATUS_NO_CONTENT {
                Ok(response)
            } else {
                Err(WriteError::Rejected(response))
            }
        },
    }
}

impl AfluenciaClient {
    /// A client for `database` on `hostname:port`, without credentials and
    /// without TLS.
    pub fn new(hostname: &str, port: u32, database: &str) -> (r: AfluenciaClient)
        ensures
            r@ == (ClientView {
                host: hostname@,
                database: database@,
                port,
                user: None,
                password: None,
                use_tls: false,
            }),
    {
        AfluenciaClient {
            host: hostname.to_owned(),
            database: database.to_owned(),
            port,
            user: None,
            password: None,
            use_tls: false,
        }
    }

    /// Sets the user name sent with each write.
    pub fn user(&mut self, user: String) -> (r: &mut AfluenciaClient)
        ensures
            r@ == (ClientView { user: Some(user@), ..old(self)@ }),
            *final(self) == *final(r),
    {
        self.user = Some(user);
        self
    }

    /// Sets the password sent with each write.
    pub fn password(&mut self, password: String) -> (r: &mut AfluenciaClient)
        ensures
            r@ == (ClientView { password: Some(password@), ..old(self)@ }),
            *final(self) == *final(r),
    {
        self.password = Some(password);
        self
    }

    /// Chooses `https` (when `enabled`) or `http` for the write endpoint.
    pub fn tls(&mut self, enabled: bool) -> (r: &mut AfluenciaClient)
        ensures
            r@ == (ClientView { use_tls: enabled, ..old(self)@ }),
            *final(self) == *final(r),
    {
        self.use_tls = enabled;
        self
    }

    /// The URL of the write endpoint (see [`write_url`]).
    pub fn get_write_base_url(&self) -> (r: String)
        ensures
            r@ == write_url(self@),
    {
        let ghost c = self@;
        let mut url = String::new();
        if self.use_tls {
            url.append("https://");
        } else {
            url.append("http://");
        }
        assert(url@ =~= scheme(c.use_tls));
        url.append(self.host.as_str());
        url.append(":");
        push_digits(&mut url, self.port as u64);
        url.append("/write?db=");
        url.append(self.database.as_str());
        let ghost base = url@;
        assert(base =~= scheme(c.use_tls) + c.host + ":"@ + digits(c.port as nat) + "/write?db="@
            + c.database);
        if let Some(user) = &self.user {
            url.append("&u=");
            url.append(user.as_str());
        }
        assert(url@ =~= base + credential_param("&u="@, c.user));
        let ghost with_user = url@;
        if let Some(password) = &self.password {
            url.append("&p=");
            url.append(password.as_str());
        }
        assert(url@ =~= with_user + credential_param("&p="@, c.password));
        proof {
            assert(url@ =~= write_url(self@));
        }
        url
    }

    /// The request that writes `measurement`: its encoded line posted to the
    /// write endpoint; an error when the point cannot be encoded.
    pub fn prepare_write(&self, measurement: DataPoint) -> (r: Result<WriteRequest, EncodeError>)
        ensures
            match r {
                Ok(req) => req.url@ == write_url(self@) && encode(measurement@) == Ok::<
                    Seq<char>,
                    EncodeError,
                >(req.body@),
                Err(e) => encode(measurement@) == Err::<Seq<char>, EncodeError>(e),
            },
    {
        let body = line_serialization(measurement)?;
        Ok(WriteRequest { url: self.get_write_base_url(), body })
    }
}

} // verus!
