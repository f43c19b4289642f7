//! Routing share URIs whose host is an mDNS `.local` name: each such host
//! is resolved once, and its address (or, when resolution failed, the name
//! itself) is remembered for every later URI on it.
use vstd::prelude::*;

use crate::shares::{local_host, replace_host, spec_is_local_host, spec_replace_range, spec_uri_host};
use crate::text::{chars_of, same_chars, string_of};

verus! {

/// The remembered address of `host`: the last one recorded for it.
pub open spec fn spec_lookup(entries: Seq<(Seq<char>, Seq<char>)>, host: Seq<char>) -> Option<Seq<char>>
    decreases entries.len(),
{
    if entries.len() == 0 {
        None
    } else if entries.last().0 == host {
        Some(entries.last().1)
    } else {
        spec_lookup(entries.drop_last(), host)
    }
}

/// Where a share URI goes.
#[derive(Debug, PartialEq, Eq)]
pub enum Routing {
    /// Connect to this URI.
    Direct(String),
    /// Resolve this `.local` host first.
    Resolve(String),
}

/// The plain view of a [`Routing`].
pub enum RoutingView {
    Direct(Seq<char>),
    Resolve(Seq<char>),
}

impl Routing {
    pub open spec fn view(&self) -> RoutingView {
        match self {
            Routing::Direct(u) => RoutingView::Direct(u@),
            Routing::Resolve(h) => RoutingView::Resolve(h@),
        }
    }
}

/// How a URI is routed with these remembered hosts: a URI whose host is not
/// a `.local` name goes as it is; a remembered host is replaced by its
/// address; any other `.local` host is resolved first.
pub open spec fn spec_route(entries: Seq<(Seq<char>, Seq<char>)>, uri: Seq<char>) -> RoutingView {
    match spec_uri_host(uri) {
        Some((host, start, end)) => if spec_is_local_host(host) {
            match spec_lookup(entries, host) {
                Some(address) => RoutingView::Direct(spec_replace_range(uri, start, end, address)),
                None => RoutingView::Resolve(host),
            }
        } else {
            RoutingView::Direct(uri)
        },
        None => RoutingView::Direct(uri),
    }
}

/// The `.local` hosts met so far, each with the address to use for it.
pub struct LocalAddresses {
    entries: Vec<(String, String)>,
}

impl LocalAddresses {
    /// The remembered hosts and addresses, oldest first.
    pub closed spec fn view(&self) -> Seq<(Seq<char>, Seq<char>)> {
        self.entries@.map_values(|e: (String, String)| (e.0@, e.1@))
    }

    /// Nothing remembered.
    pub fn new() -> (a: LocalAddresses)
        ensures
            a@ == Seq::<(Seq<char>, Seq<char>)>::empty(),
    {
        let a = LocalAddresses { entries: Vec::new() };
        assert(a@ =~= Seq::<(Seq<char>, Seq<char>)>::empty());
        a
    }

    /// The remembered address of `host`.
    pub fn lookup(&self, host: &str) -> (address: Option<String>)
        ensures
            match address {
                Some(a) => spec_lookup(self@, host@) == Some(a@),
                None => spec_lookup(self@, host@) is None,
            },
    {
        let h = chars_of(host);
        let mut k: usize = self.entries.len();
        assert(self@.take(self@.len() as int) =~= self@);
        while k > 0
            invariant
                k <= self.entries@.len(),
                h@ == host@,
                spec_lookup(self@, host@) == spec_lookup(self@.take(k as int), host@),
            decreases k,
        {
            assert(self@.take(k as int).drop_last() =~= self@.take(k - 1));
            assert(self@[k - 1] == (self.entries@[k - 1].0@, self.entries@[k - 1].1@));
            if same_chars(&chars_of(self.entries[k - 1].0.as_str()), &h) {
                return Some(string_of(&chars_of(self.entries[k - 1].1.as_str())));
            }
            k -= 1;
        }
        None
    }

    /// Where a share URI goes (see [`spec_route`]).
    pub fn route(&self, uri: &str) -> (routing: Routing)
        ensures
            routing@ == spec_route(self@, uri@),
    {
        match local_host(uri) {
            None => Routing::Direct(string_of(&chars_of(uri))),
            Some((host, range)) => match self.lookup(host.as_str()) {
                Some(address) => Routing::Direct(replace_host(uri, range, address)),
                None => Routing::Resolve(host),
            },
        }
    }

    /// Records how `host` resolved: its address, or the name itself when
    /// resolution failed, so it is not asked again.
    pub fn remember(&mut self, host: String, resolved: Option<String>)
        ensures
            final(self)@ == old(self)@.push(
                (
                    host@,
                    match resolved {
                        Some(a) => a@,
                        None => host@,
                    },
                ),
            ),
    {
        let address = match resolved {
            Some(a) => a,
            None => string_of(&chars_of(host.as_str())),
        };
        let ghost before = self@;
        let ghost entry = (host@, address@);
        self.entries.push((host, address));
        assert(self@ =~= before.push(entry));
    }
}

/// Once a `.local` host is recorded, every URI on it goes straight to the
/// recorded address (or, when its resolution failed, to the host name
/// itself) without resolving again.
pub proof fn lemma_remembered_host_routes_directly(
    entries: Seq<(Seq<char>, Seq<char>)>,
    host: Seq<char>,
    resolved: Option<Seq<char>>,
    uri: Seq<char>,
)
    requires
        spec_uri_host(uri) matches Some((h, _, _)) && h == host && spec_is_local_host(h),
    ensures
        ({
            let address = match resolved {
                Some(a) => a,
                None => host,
            };
            let (_, start, end) = spec_uri_host(uri).unwrap();
            spec_route(entries.push((host, address)), uri) == RoutingView::Direct(
                spec_replace_range(uri, start, end, address),
            )
        }),
{
    let address = match resolved {
        Some(a) => a,
        None => host,
    };
    assert(entries.push((host, address)).last() == (host, address));
}

} // verus!
