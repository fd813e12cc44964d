//! Network addresses as they travel on the wire: a text, together with the
//! parts that the routing and discovery logic reads from it.
use vstd::prelude::*;

verus! {

/// The parts of a URL text that this library reads.
pub struct UriParts {
    /// Scheme specifier, lower case; empty when the text has none.
    pub scheme: Seq<char>,
    /// Network location part (`user@host:port`).
    pub netloc: Seq<char>,
    /// Hierarchical path.
    pub path: Seq<char>,
    /// Host name, lower case.
    pub hostname: Option<Seq<char>>,
    /// Port number.
    pub port: Option<u16>,
}

/// What `urlparse::urlparse` makes of a text. The split is a function of the
/// text alone; it is not restated here.
pub uninterp spec fn uri_parts(text: Seq<char>) -> UriParts;

/// Whether an optional string holds the given optional characters.
pub open spec fn opt_text_is(s: Option<String>, v: Option<Seq<char>>) -> bool {
    match (s, v) {
        (Some(a), Some(b)) => a@ == b,
        (None, None) => true,
        _ => false,
    }
}

/// Calls `urlparse::urlparse` on `text` and hands back five fields of the
/// `Url` it returns: `scheme`, `netloc`, `path`, `hostname` and `port`.
/// Trusted: these are the parts that `uri_parts` names for this text. The
/// parser accepts every text and never fails.
#[verifier::external_body]
fn split_url(text: &str) -> (r: (String, String, String, Option<String>, Option<u16>))
    ensures
        r.0@ == uri_parts(text@).scheme,
        r.1@ == uri_parts(text@).netloc,
        r.2@ == uri_parts(text@).path,
        opt_text_is(r.3, uri_parts(text@).hostname),
        r.4 == uri_parts(text@).port,
{
    let u = urlparse::urlparse(text);
    (u.scheme, u.netloc, u.path, u.hostname, u.port)
}

/// A network address: the text that is sent on the wire, with the parts parsed
/// from it. Two addresses with the same text have the same parts.
#[derive(Debug, PartialEq, Eq)]
pub struct Uri {
    text: String,
    scheme: String,
    netloc: String,
    path: String,
    hostname: Option<String>,
    port: Option<u16>,
}

impl View for Uri {
    type V = Seq<char>;

    /// An address is modelled by its text.
    closed spec fn view(&self) -> Seq<char> {
        self.text@
    }
}

impl Uri {
    /// The invariant of an address: its parts are those of its text.
    #[verifier::type_invariant]
    spec fn parts_match_text(&self) -> bool {
        &&& self.scheme@ == uri_parts(self.text@).scheme
        &&& self.netloc@ == uri_parts(self.text@).netloc
        &&& self.path@ == uri_parts(self.text@).path
        &&& opt_text_is(self.hostname, uri_parts(self.text@).hostname)
        &&& self.port == uri_parts(self.text@).port
    }

    /// Parses an address text. Every text is accepted.
    pub fn parse(text: &str) -> (r: Uri)
        ensures
            r@ == text@,
    {
        let parts = split_url(text);
        Uri {
            text: text.to_owned(),
            scheme: parts.0,
            netloc: parts.1,
            path: parts.2,
            hostname: parts.3,
            port: parts.4,
        }
    }

    /// The text of the address, as it is written on the wire.
    pub fn as_str(&self) -> (r: &str)
        ensures
            r@ == self@,
    {
        self.text.as_str()
    }

    /// The scheme of the address.
    pub fn scheme(&self) -> (r: &str)
        ensures
            r@ == uri_parts(self@).scheme,
    {
        proof {
            use_type_invariant(self);
        }
        self.scheme.as_str()
    }

    /// The network location of the address.
    pub fn netloc(&self) -> (r: &str)
        ensures
            r@ == uri_parts(self@).netloc,
    {
        proof {
            use_type_invariant(self);
        }
        self.netloc.as_str()
    }

    /// The path of the address.
    pub fn path(&self) -> (r: &str)
        ensures
            r@ == uri_parts(self@).path,
    {
        proof {
            use_type_invariant(self);
        }
        self.path.as_str()
    }

    /// The host name of the address, if it has one.
    pub fn hostname(&self) -> (r: Option<&str>)
        ensures
            match r {
                Some(h) => uri_parts(self@).hostname == Some(h@),
                None => uri_parts(self@).hostname.is_none(),
            },
    {
        proof {
            use_type_invariant(self);
        }
        match &self.hostname {
            Some(h) => Some(h.as_str()),
            None => None,
        }
    }

    /// The port of the address, if it has one.
    pub fn port(&self) -> (r: Option<u16>)
        ensures
            r == uri_parts(self@).port,
    {
        proof {
            use_type_invariant(self);
        }
        self.port
    }
}

impl Clone for Uri {
    fn clone(&self) -> (r: Uri)
        ensures
            r@ == self@,
    {
        proof {
            use_type_invariant(self);
        }
        let hostname = match &self.hostname {
            Some(h) => Some(h.clone()),
            None => None,
        };
        Uri {
            text: self.text.clone(),
            scheme: self.scheme.clone(),
            netloc: self.netloc.clone(),
            path: self.path.clone(),
            hostname,
            port: self.port,
        }
    }
}

} // verus!
