//! The options every server built on this kit shares.

use vstd::prelude::*;

use crate::text;
use crate::text::trim;

verus! {

/// How a server speaks to its clients.
#[derive(Debug, Clone, Copy, PartialEq, Eq, Structural)]
pub enum Transport {
    /// Newline-delimited JSON-RPC over stdin/stdout. What an IDE launches.
    Stdio,
    /// Streamable HTTP.
    Http,
    /// Accepted as an alias for `http`.
    ///
    /// The standalone SSE transport was deprecated in favour of Streamable HTTP,
    /// which uses SSE for its streaming responses. Kept so existing
    /// `--transport sse` invocations keep working.
    Sse,
}

impl Transport {
    /// Whether this transport listens on a socket.
    pub open spec fn listens(self) -> bool {
        self == Transport::Http || self == Transport::Sse
    }

    /// Whether this transport listens on a socket.
    pub fn is_http(self) -> (yes: bool)
        ensures
            yes == self.listens(),
    {
        match self {
            Transport::Http => true,
            Transport::Sse => true,
            Transport::Stdio => false,
        }
    }
}

/// Standard options for a tool server.
#[derive(Debug)]
pub struct ServerOptions {
    /// How to speak to clients.
    pub transport: Transport,
    /// Address for the HTTP transports.
    pub bind: String,
    /// Collapse every tool into one dispatching tool, for clients that limit
    /// how many tools they accept.
    pub single_tool: bool,
    /// Default per-call timeout in seconds.
    pub timeout: u64,
    /// Upper bound a caller's own `timeout` argument is clamped to.
    pub max_timeout: u64,
    /// Bearer token required by the HTTP transports. Without one, HTTP mode
    /// refuses to start unless unauthenticated access is allowed.
    pub auth_token: Option<String>,
    /// Serve HTTP without authentication. Every tool becomes reachable by any
    /// local process.
    pub allow_unauthenticated: bool,
    /// Log verbosity.
    pub log: Option<String>,
    /// Print the tools this server would expose, then exit.
    pub list_tools: bool,
    /// With `list_tools`, emit JSON instead of a table.
    pub json: bool,
}

impl Default for ServerOptions {
    fn default() -> (options: ServerOptions)
        ensures
            options.transport == Transport::Stdio,
            options.bind@ == "127.0.0.1:8080"@,
            !options.single_tool,
            options.timeout == 30,
            options.max_timeout == 300,
            options.auth_token is None,
            !options.allow_unauthenticated,
            options.log is None,
            !options.list_tools,
            !options.json,
    {
        ServerOptions {
            transport: Transport::Stdio,
            bind: "127.0.0.1:8080".to_owned(),
            single_tool: false,
            timeout: 30,
            max_timeout: 300,
            auth_token: None,
            allow_unauthenticated: false,
            log: None,
            list_tools: false,
            json: false,
        }
    }
}

fn clone_text(text: &Option<String>) -> (copy: Option<String>)
    ensures
        copy == *text,
{
    match text {
        Some(text) => Some(text.clone()),
        None => None,
    }
}

impl Clone for ServerOptions {
    fn clone(&self) -> (copy: ServerOptions)
        ensures
            copy == *self,
    {
        ServerOptions {
            transport: self.transport,
            bind: self.bind.clone(),
            single_tool: self.single_tool,
            timeout: self.timeout,
            max_timeout: self.max_timeout,
            auth_token: clone_text(&self.auth_token),
            allow_unauthenticated: self.allow_unauthenticated,
            log: clone_text(&self.log),
            list_tools: self.list_tools,
            json: self.json,
        }
    }
}

impl ServerOptions {
    /// The effective bearer token, treating blank as absent.
    pub open spec fn effective_token(self) -> Option<Seq<char>> {
        match self.auth_token {
            Some(token) => if text::trimmed(token@).len() > 0 {
                Some(text::trimmed(token@))
            } else {
                None
            },
            None => None,
        }
    }

    /// Whether the HTTP transport may start.
    pub open spec fn may_listen(self) -> bool {
        self.effective_token() is Some || self.allow_unauthenticated
    }

    /// The effective bearer token, treating blank as absent.
    pub fn token(&self) -> (token: Option<&str>)
        ensures
            token is Some == self.effective_token() is Some,
            token is Some ==> token->0@ == self.effective_token()->0,
    {
        match &self.auth_token {
            Some(token) => {
                let trimmed = trim(token.as_str());
                if trimmed.is_empty() {
                    None
                } else {
                    Some(trimmed)
                }
            },
            None => None,
        }
    }

    /// Whether the HTTP transport may start given the auth settings.
    pub fn http_start_permitted(&self) -> (yes: bool)
        ensures
            yes == self.may_listen(),
    {
        self.token().is_some() || self.allow_unauthenticated
    }
}

} // verus!
