//! The configured discovery remotes.
use crate::address::{chars_of, string_of};
use crate::race::{PingerError, Race};
use vstd::prelude::*;

verus! {

#[verifier::external_type_specification]
#[verifier::external_body]
pub struct ExUrlParseError(url::ParseError);

/// What `url::Url::parse` makes of a text: the URL's serialization, or `None` where
/// the text is no absolute URL.
pub uninterp spec fn parsed_url(s: Seq<char>) -> Option<Seq<char>>;

/// Relies on `url::Url::parse`, a function of its input alone, and `Url::as_str`, the
/// serialization of the parsed URL.
#[verifier::external_body]
fn parse_url(s: &str) -> (r: Result<String, url::ParseError>)
    ensures
        match r {
            Ok(u) => parsed_url(s@) == Some(u@),
            Err(_) => parsed_url(s@) is None,
        },
{
    match url::Url::parse(s) {
        Ok(u) => Ok(u.as_str().to_string()),
        Err(e) => Err(e),
    }
}

/// The remotes of a discovery race, each held as its URL's serialization.
pub struct IpPinger {
    pub remotes: Vec<String>,
}

/// Collects remotes, each checked to be a URL.
pub struct IpPingerBuilder {
    pub remotes: Vec<String>,
}

/// `s` less its last character when that is a `/`.
pub open spec fn without_trailing_slash(s: Seq<char>) -> Seq<char> {
    if s.len() > 0 && s.last() == '/' {
        s.drop_last()
    } else {
        s
    }
}

pub open spec fn texts(v: Seq<String>) -> Seq<Seq<char>> {
    v.map_values(|s: String| s@)
}

impl IpPinger {
    pub fn builder() -> (r: IpPingerBuilder)
        ensures
            r.remotes@.len() == 0,
    {
        IpPingerBuilder::new()
    }

    /// A race over these remotes, none of which has answered.
    pub fn start(&self) -> (r: Race)
        ensures
            r.wf(),
            r.remotes() == self.remotes@.len(),
            r.failures@.len() == 0,
    {
        Race::new(self.remotes.len())
    }

    /// The URL asked of remote `i`: its base, less one trailing slash, followed by `/ip`.
    pub fn endpoint(&self, i: usize) -> (r: String)
        requires
            i < self.remotes@.len(),
        ensures
            r@ == without_trailing_slash(self.remotes@[i as int]@) + seq!['/', 'i', 'p'],
    {
        let mut cs = chars_of(self.remotes[i].as_str());
        let ghost base = cs@;
        if cs.len() > 0 && cs[cs.len() - 1] == '/' {
            cs.pop();
        }
        assert(cs@ =~= without_trailing_slash(base));
        cs.push('/');
        cs.push('i');
        cs.push('p');
        assert(cs@ =~= without_trailing_slash(base) + seq!['/', 'i', 'p']);
        string_of(&cs)
    }
}

impl IpPingerBuilder {
    pub fn new() -> (r: Self)
        ensures
            r.remotes@.len() == 0,
    {
        IpPingerBuilder { remotes: Vec::new() }
    }

    /// Adds a remote, which must parse as an absolute URL.
    pub fn with_remote(self, remote: &str) -> (r: Result<Self, PingerError>)
        ensures
            match parsed_url(remote@) {
                Some(u) => r matches Ok(b) && texts(b.remotes@) == texts(self.remotes@).push(u),
                None => r matches Err(PingerError::InvalidRemote { remote: t }) && t@ == remote@,
            },
    {
        let mut remotes = self.remotes;
        match parse_url(remote) {
            Ok(u) => {
                let ghost before = remotes@;
                remotes.push(u);
                assert(texts(remotes@) =~= texts(before).push(parsed_url(remote@)->Some_0));
                Ok(IpPingerBuilder { remotes })
            },
            Err(_) => Err(PingerError::InvalidRemote { remote: remote.to_string() }),
        }
    }

    pub fn build(self) -> (r: IpPinger)
        ensures
            r.remotes@ == self.remotes@,
    {
        IpPinger { remotes: self.remotes }
    }
}

} // verus!
