//! Trying one Overpass server after another.

use crate::retrieve_data::overpass::{error_calls_for_split, overpass_error_suggests_split};
use crate::text::lowercase;
use rand::seq::SliceRandom;
use vstd::prelude::*;

verus! {

/// The addresses of the servers that share the load.
pub fn api_servers() -> (servers: Vec<String>)
    ensures
        servers@.len() == 3,
        servers@[0]@ == "https://overpass-api.de/api/interpreter"@,
        servers@[1]@ == "https://lz4.overpass-api.de/api/interpreter"@,
        servers@[2]@ == "https://z.overpass-api.de/api/interpreter"@,
{
    vec![
        "https://overpass-api.de/api/interpreter".to_string(),
        "https://lz4.overpass-api.de/api/interpreter".to_string(),
        "https://z.overpass-api.de/api/interpreter".to_string(),
    ]
}

/// The addresses of the servers that are tried when those that share the load fail.
pub fn fallback_api_servers() -> (servers: Vec<String>)
    ensures
        servers@.len() == 1,
        servers@[0]@ == "https://maps.mail.ru/osm/tools/overpass/api/interpreter"@,
{
    vec!["https://maps.mail.ru/osm/tools/overpass/api/interpreter".to_string()]
}

/// `rand::seq::SliceRandom::shuffle` with `rand::rng()`: the same items, in an order
/// that chance picks.
#[verifier::external_body]
fn shuffle(items: &mut Vec<String>)
    ensures
        final(items)@.to_multiset() == old(items)@.to_multiset(),
{
    items.shuffle(&mut rand::rng())
}

/// The order in which servers are tried: those that share the load in an order that
/// chance picks, then the fallback servers as they are listed.
pub fn server_order(api_servers: Vec<String>, fallback_api_servers: Vec<String>) -> (order: Vec<
    String,
>)
    ensures
        order@.len() == api_servers@.len() + fallback_api_servers@.len(),
        order@.take(api_servers@.len() as int).to_multiset() == api_servers@.to_multiset(),
        order@.skip(api_servers@.len() as int) == fallback_api_servers@,
{
    let mut order = api_servers;
    shuffle(&mut order);
    let ghost shuffled = order@;
    proof {
        shuffled.to_multiset_ensures();
        api_servers@.to_multiset_ensures();
    }
    let mut fallback = fallback_api_servers;
    order.append(&mut fallback);
    proof {
        assert(order@ == shuffled + fallback_api_servers@);
        assert(order@.take(api_servers@.len() as int) == shuffled);
    }
    order
}

/// The first of some messages that calls for smaller tiles.
pub open spec fn first_split_error(errors: Seq<Seq<char>>) -> Option<Seq<char>>
    decreases errors.len(),
{
    if errors.len() == 0 {
        None
    } else {
        match first_split_error(errors.drop_last()) {
            Some(message) => Some(message),
            None => if error_calls_for_split(lowercase(errors.last())) {
                Some(errors.last())
            } else {
                None
            },
        }
    }
}

/// The message with which a search through all servers ends: the first that calls for
/// smaller tiles, else the last, else that there was no server.
pub open spec fn overall_error(errors: Seq<Seq<char>>) -> Seq<char> {
    match first_split_error(errors) {
        Some(message) => message,
        None => if errors.len() > 0 {
            errors.last()
        } else {
            "No Overpass servers available."@
        },
    }
}

/// A search through servers for one that answers.
pub struct ServerSearch {
    servers: Vec<String>,
    tried: usize,
    split_error: Option<String>,
    last_error: Option<String>,
    errors: Ghost<Seq<Seq<char>>>,
}

impl ServerSearch {
    /// The servers, in the order in which they are tried.
    pub closed spec fn servers(self) -> Seq<String> {
        self.servers@
    }

    /// The messages of the servers that have failed, in order.
    pub closed spec fn errors(self) -> Seq<Seq<char>> {
        self.errors@
    }

    /// Each server tried has left a message; the first that calls for smaller tiles and
    /// the last are kept.
    #[verifier::type_invariant]
    spec fn well_formed(self) -> bool {
        &&& self.tried == self.errors@.len()
        &&& self.tried <= self.servers@.len()
        &&& match self.split_error {
            Some(message) => first_split_error(self.errors@) == Some(message@),
            None => first_split_error(self.errors@) is None,
        }
        &&& match self.last_error {
            Some(message) => self.errors@.len() > 0 && message@ == self.errors@.last(),
            None => self.errors@.len() == 0,
        }
    }

    /// A search that has tried no server yet.
    pub fn new(servers: Vec<String>) -> (search: ServerSearch)
        ensures
            search.servers() == servers@,
            search.errors() == Seq::<Seq<char>>::empty(),
    {
        ServerSearch {
            servers,
            tried: 0,
            split_error: None,
            last_error: None,
            errors: Ghost(Seq::empty()),
        }
    }

    /// The server to try next: the first that has not failed.
    pub fn next_server(&self) -> (server: Option<&String>)
        ensures
            server == if self.errors().len() < self.servers().len() {
                Some(&self.servers()[self.errors().len() as int])
            } else {
                None
            },
    {
        proof {
            use_type_invariant(self);
        }
        if self.tried < self.servers.len() {
            Some(&self.servers[self.tried])
        } else {
            None
        }
    }

    /// The search after the server tried last has failed. Once all servers have been
    /// tried, there is none to fail.
    pub fn with_failure(self, error: String) -> (search: ServerSearch)
        ensures
            search.servers() == self.servers(),
            search.errors() == if self.errors().len() < self.servers().len() {
                self.errors().push(error@)
            } else {
                self.errors()
            },
    {
        proof {
            use_type_invariant(&self);
        }
        if self.tried >= self.servers.len() {
            return self;
        }
        let ghost before = self.errors@;
        let ghost after = before.push(error@);
        let ServerSearch { servers, tried, split_error, last_error: _, errors: _ } = self;
        let split_error = match split_error {
            Some(message) => Some(message),
            None => if overpass_error_suggests_split(error.as_str()) {
                Some(error.clone())
            } else {
                None
            },
        };
        proof {
            assert(after.drop_last() == before);
        }
        ServerSearch {
            servers,
            tried: tried + 1,
            split_error,
            last_error: Some(error),
            errors: Ghost(after),
        }
    }

    /// The message with which the search ends if no server has answered.
    pub fn into_error(self) -> (error: String)
        ensures
            error@ == overall_error(self.errors()),
    {
        proof {
            use_type_invariant(&self);
        }
        match self.split_error {
            Some(message) => message,
            None => match self.last_error {
                Some(message) => message,
                None => "No Overpass servers available.".to_string(),
            },
        }
    }
}

/// The first message that calls for smaller tiles is found if there is one.
proof fn lemma_first_split_error(errors: Seq<Seq<char>>, i: int)
    requires
        0 <= i < errors.len(),
        error_calls_for_split(lowercase(errors[i])),
    ensures
        first_split_error(errors) is Some,
        error_calls_for_split(lowercase(first_split_error(errors)->0)),
    decreases errors.len(),
{
    let shorter = errors.drop_last();
    if i < errors.len() - 1 {
        lemma_first_split_error(shorter, i);
    } else if first_split_error(shorter) is Some {
        lemma_is_split_error(shorter);
    }
}

proof fn lemma_is_split_error(errors: Seq<Seq<char>>)
    requires
        first_split_error(errors) is Some,
    ensures
        error_calls_for_split(lowercase(first_split_error(errors)->0)),
    decreases errors.len(),
{
    if first_split_error(errors.drop_last()) is Some {
        lemma_is_split_error(errors.drop_last());
    }
}

/// If one of the servers that were tried failed in a way that smaller tiles may avoid, so
/// did the whole search, whatever the servers after it replied.
pub proof fn law_search_calls_for_split(errors: Seq<Seq<char>>, i: int)
    requires
        0 <= i < errors.len(),
        error_calls_for_split(lowercase(errors[i])),
    ensures
        error_calls_for_split(lowercase(overall_error(errors))),
{
    lemma_first_split_error(errors, i);
}

/// The message of a search is that of the first server whose failure calls for smaller
/// tiles; without one it is that of the last server, and without servers it says so.
pub proof fn law_message_of_search(errors: Seq<Seq<char>>, i: int)
    ensures
        0 <= i < errors.len() && error_calls_for_split(lowercase(errors[i])) && (forall|j: int|
            0 <= j < i ==> !error_calls_for_split(lowercase(#[trigger] errors[j])))
            ==> overall_error(errors) == errors[i],
        errors.len() > 0 && (forall|j: int|
            0 <= j < errors.len() ==> !error_calls_for_split(lowercase(#[trigger] errors[j])))
            ==> overall_error(errors) == errors[errors.len() - 1],
        errors.len() == 0 ==> overall_error(errors) == "No Overpass servers available."@,
{
    if 0 <= i < errors.len() && error_calls_for_split(lowercase(errors[i])) && (forall|j: int|
        0 <= j < i ==> !error_calls_for_split(lowercase(#[trigger] errors[j]))) {
        lemma_first_is_found(errors, i);
    }
    if forall|j: int|
        0 <= j < errors.len() ==> !error_calls_for_split(lowercase(#[trigger] errors[j])) {
        lemma_none_is_found(errors);
    }
}

proof fn lemma_none_is_found(errors: Seq<Seq<char>>)
    requires
        forall|j: int|
            0 <= j < errors.len() ==> !error_calls_for_split(lowercase(#[trigger] errors[j])),
    ensures
        first_split_error(errors) is None,
    decreases errors.len(),
{
    if errors.len() > 0 {
        let shorter = errors.drop_last();
        assert forall|j: int| 0 <= j < shorter.len() implies !error_calls_for_split(
            lowercase(#[trigger] shorter[j]),
        ) by {
            assert(shorter[j] == errors[j]);
        }
        lemma_none_is_found(shorter);
        assert(errors[errors.len() - 1] == errors.last());
    }
}

proof fn lemma_first_is_found(errors: Seq<Seq<char>>, i: int)
    requires
        0 <= i < errors.len(),
        error_calls_for_split(lowercase(errors[i])),
        forall|j: int| 0 <= j < i ==> !error_calls_for_split(lowercase(#[trigger] errors[j])),
    ensures
        first_split_error(errors) == Some(errors[i]),
    decreases errors.len(),
{
    let shorter = errors.drop_last();
    if i < errors.len() - 1 {
        assert forall|j: int| 0 <= j < i implies !error_calls_for_split(
            lowercase(#[trigger] shorter[j]),
        ) by {
            assert(shorter[j] == errors[j]);
        }
        lemma_first_is_found(shorter, i);
    } else {
        assert forall|j: int| 0 <= j < shorter.len() implies !error_calls_for_split(
            lowercase(#[trigger] shorter[j]),
        ) by {
            assert(shorter[j] == errors[j]);
        }
        lemma_none_is_found(shorter);
    }
}

} // verus!
