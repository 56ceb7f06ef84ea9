//! Values exchanged with clients: the resolved player identity, the
//! broadcast message describing one action, the response to a draw,
//! and the pure identity-resolution rule.

use vstd::prelude::*;

verus! {

/// A resolved player identity.
pub struct User {
    pub name: String,
}

/// One broadcast message: which player acted, the card drawn if any,
/// and whether the action was a shuffle or emptied the deck.
pub struct Message {
    pub name: String,
    pub arcana: Option<u8>,
    pub is_shuffle: bool,
    pub is_last_card: bool,
}

/// Mathematical content of a [`Message`].
pub ghost struct MessageView {
    pub name: Seq<char>,
    pub arcana: Option<u8>,
    pub is_shuffle: bool,
    pub is_last_card: bool,
}

impl View for Message {
    type V = MessageView;

    open spec fn view(&self) -> MessageView {
        MessageView {
            name: self.name@,
            arcana: self.arcana,
            is_shuffle: self.is_shuffle,
            is_last_card: self.is_last_card,
        }
    }
}

impl Clone for Message {
    /// The clone carries exactly the same message content.
    fn clone(&self) -> (r: Message)
        ensures
            r@ == self@,
    {
        Message {
            name: self.name.clone(),
            arcana: self.arcana,
            is_shuffle: self.is_shuffle,
            is_last_card: self.is_last_card,
        }
    }
}

/// The response to a draw request: the card drawn, or a user-facing
/// condition explaining why none was, and whether the deck is now
/// exhausted.
pub struct DeckResponse {
    pub arcana: Option<u8>,
    pub error: Option<String>,
    pub is_last_card: bool,
}

/// Outcome of resolving a request's player identity from its possible
/// sources.
pub enum Resolution {
    Accept(String),
    Forward,
    Reject(String),
}

/// Resolves a player identity from an optional session-cookie identity
/// and an optional query-parameter identity.
///
/// With no cookie, the request is forwarded unless the query names a
/// player, who is then accepted. With a cookie, a query naming a
/// different player is rejected; otherwise the cookie's identity wins.
pub fn resolve(cookie_name: Option<String>, query_name: Option<String>) -> (r: Resolution)
    ensures
        cookie_name is None && query_name is None ==> r is Forward,
        cookie_name is None && query_name is Some ==> r is Accept && r->Accept_0@
            == query_name->Some_0@,
        cookie_name is Some && query_name is Some && cookie_name->Some_0@ != query_name->Some_0@
            ==> r is Reject && r->Reject_0@ == "You cannot login with multiple usernames"@,
        cookie_name is Some && (query_name is None || cookie_name->Some_0@ == query_name->Some_0@)
            ==> r is Accept && r->Accept_0@ == cookie_name->Some_0@,
{
    match cookie_name {
        None => match query_name {
            None => Resolution::Forward,
            Some(q) => Resolution::Accept(q),
        },
        Some(c) => match query_name {
            Some(q) => {
                if !c.eq(&q) {
                    return Resolution::Reject(
                        "You cannot login with multiple usernames".to_owned(),
                    );
                }
                Resolution::Accept(c)
            },
            None => Resolution::Accept(c),
        },
    }
}

} // verus!
