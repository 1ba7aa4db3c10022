//! Turning a streaming request into a subscription: which timeline it asks
//! for, whether the user may read it, and what to filter by.

use crate::text::{chars_of, seg_eq};
use crate::timeline::{Content, Reach, Stream, Timeline};
use crate::user::{Blocks, Scope, UserData, PUBLIC_USER_ID};
use vstd::prelude::*;
use vstd::string::*;

verus! {

/// A streaming request, as read from its path, query and headers.
pub struct Query {
    pub access_token: Option<String>,
    pub stream: String,
    pub media: bool,
    pub hashtag: String,
    pub list: i64,
}

/// Why a request gets no subscription.
#[derive(Clone, Copy, Debug, PartialEq, Eq, Structural)]
pub enum RequestErr {
    /// The token is missing, unknown, or lacks the scope the stream needs.
    Unauthorized,
    /// No such stream, or no such hashtag.
    NotFound,
}

/// What a client is subscribed to, and what its events are filtered by.
pub struct Subscription {
    pub timeline: Timeline,
    pub allowed_langs: Vec<String>,
    pub blocks: Blocks,
    pub hashtag_name: Option<String>,
    pub access_token: Option<String>,
}

impl Default for Subscription {
    fn default() -> (r: Subscription)
        ensures
            r.timeline == Timeline(Stream::Unset, Reach::Local, Content::Notification),
            r.allowed_langs@.len() == 0,
            r.blocks.blocked_domains@.len() == 0,
            r.blocks.blocked_users@.len() == 0,
            r.blocks.blocking_users@.len() == 0,
            r.hashtag_name is None,
            r.access_token is None,
    {
        Subscription {
            timeline: Timeline::empty(),
            allowed_langs: Vec::new(),
            blocks: Blocks::none(),
            hashtag_name: None,
            access_token: None,
        }
    }
}

/// The timeline a stream name asks for, given the user's id and whether it
/// holds the `Statuses` and `Lists` scopes, the hashtag's id as the store
/// gave it, and whether the user owns the requested list.
pub open spec fn timeline_for(
    stream: Seq<char>,
    media: bool,
    list: i64,
    user_id: i64,
    statuses: bool,
    lists: bool,
    tag_id: Option<i64>,
    owns_list: bool,
) -> Result<Timeline, RequestErr> {
    if stream == "public"@ {
        Ok(Timeline(Stream::Public, Reach::Federated, if media { Content::Media } else { Content::All }))
    } else if stream == "public:local"@ {
        Ok(Timeline(Stream::Public, Reach::Local, if media { Content::Media } else { Content::All }))
    } else if stream == "public:media"@ {
        Ok(Timeline(Stream::Public, Reach::Federated, Content::Media))
    } else if stream == "public:local:media"@ {
        Ok(Timeline(Stream::Public, Reach::Local, Content::Media))
    } else if stream == "hashtag"@ || stream == "hashtag:local"@ {
        match tag_id {
            Some(id) => Ok(Timeline(
                Stream::Hashtag(id),
                if stream == "hashtag"@ { Reach::Federated } else { Reach::Local },
                Content::All,
            )),
            None => Err(RequestErr::NotFound),
        }
    } else if stream == "user"@ || stream == "user:notification"@ || stream == "direct"@ {
        if statuses {
            Ok(if stream == "user"@ {
                Timeline(Stream::User(user_id), Reach::Federated, Content::All)
            } else if stream == "direct"@ {
                Timeline(Stream::Direct(user_id), Reach::Federated, Content::All)
            } else {
                Timeline(Stream::User(user_id), Reach::Federated, Content::Notification)
            })
        } else {
            Err(RequestErr::Unauthorized)
        }
    } else if stream == "list"@ {
        if lists && owns_list {
            Ok(Timeline(Stream::List(list), Reach::Federated, Content::All))
        } else {
            Err(RequestErr::Unauthorized)
        }
    } else {
        Err(RequestErr::NotFound)
    }
}

impl Timeline {
    /// The timeline that a request asks for. `tag_id` is the store's id for
    /// the requested hashtag, if it has one; `owns_list` whether the user
    /// owns the requested list.
    pub fn from_query_and_user(
        q: &Query,
        user: &UserData,
        tag_id: Option<i64>,
        owns_list: bool,
    ) -> (r: Result<Timeline, RequestErr>)
        ensures
            r == timeline_for(
                q.stream@,
                q.media,
                q.list,
                user.id,
                user.has_scope(Scope::Statuses),
                user.has_scope(Scope::Lists),
                tag_id,
                owns_list,
            ),
    {
        let s = chars_of(q.stream.as_str());
        let s = s.as_slice();
        let media = if q.media { Content::Media } else { Content::All };
        if seg_eq(s, "public") {
            Ok(Timeline(Stream::Public, Reach::Federated, media))
        } else if seg_eq(s, "public:local") {
            Ok(Timeline(Stream::Public, Reach::Local, media))
        } else if seg_eq(s, "public:media") {
            Ok(Timeline(Stream::Public, Reach::Federated, Content::Media))
        } else if seg_eq(s, "public:local:media") {
            Ok(Timeline(Stream::Public, Reach::Local, Content::Media))
        } else if seg_eq(s, "hashtag") || seg_eq(s, "hashtag:local") {
            let reach = if seg_eq(s, "hashtag") { Reach::Federated } else { Reach::Local };
            match tag_id {
                Some(id) => Ok(Timeline(Stream::Hashtag(id), reach, Content::All)),
                None => Err(RequestErr::NotFound),
            }
        } else if seg_eq(s, "user") || seg_eq(s, "user:notification") || seg_eq(s, "direct") {
            if user.holds(Scope::Statuses) {
                if seg_eq(s, "user") {
                    Ok(Timeline(Stream::User(user.id), Reach::Federated, Content::All))
                } else if seg_eq(s, "direct") {
                    Ok(Timeline(Stream::Direct(user.id), Reach::Federated, Content::All))
                } else {
                    Ok(Timeline(Stream::User(user.id), Reach::Federated, Content::Notification))
                }
            } else {
                Err(RequestErr::Unauthorized)
            }
        } else if seg_eq(s, "list") {
            if user.holds(Scope::Lists) && owns_list {
                Ok(Timeline(Stream::List(q.list), Reach::Federated, Content::All))
            } else {
                Err(RequestErr::Unauthorized)
            }
        } else {
            Err(RequestErr::NotFound)
        }
    }
}

/// What a request resolves to. `user` is the store's user for the request's
/// token (`None` when it knows none); without a token the anonymous user
/// applies, unless only known users are let in.
pub open spec fn subscription_for(
    q: Query,
    user: Option<UserData>,
    tag_id: Option<i64>,
    owns_list: bool,
    whitelist_mode: bool,
) -> Result<Timeline, RequestErr> {
    match q.access_token {
        Some(_) => match user {
            Some(u) => timeline_for(
                q.stream@,
                q.media,
                q.list,
                u.id,
                u.has_scope(Scope::Statuses),
                u.has_scope(Scope::Lists),
                tag_id,
                owns_list,
            ),
            None => Err(RequestErr::Unauthorized),
        },
        None => if whitelist_mode {
            Err(RequestErr::Unauthorized)
        } else {
            timeline_for(q.stream@, q.media, q.list, PUBLIC_USER_ID, false, false, tag_id, owns_list)
        },
    }
}

impl Subscription {
    /// Resolves a request into a subscription: the user behind its token,
    /// the timeline it asks for, and the user's languages and blocks.
    pub fn from_query(
        q: Query,
        user: Option<UserData>,
        tag_id: Option<i64>,
        owns_list: bool,
        blocks: Blocks,
        whitelist_mode: bool,
    ) -> (r: Result<Subscription, RequestErr>)
        ensures
            match subscription_for(q, user, tag_id, owns_list, whitelist_mode) {
                Ok(t) => {
                    &&& r is Ok
                    &&& r->Ok_0.timeline == t
                    &&& r->Ok_0.access_token == q.access_token
                    &&& r->Ok_0.blocks == blocks
                    &&& r->Ok_0.allowed_langs@ == match user {
                        Some(u) if q.access_token is Some => u.allowed_langs@,
                        _ => Seq::<String>::empty(),
                    }
                    &&& if t.0 is Hashtag {
                        r->Ok_0.hashtag_name == Some(q.hashtag)
                    } else {
                        r->Ok_0.hashtag_name is None
                    }
                },
                Err(e) => r is Err && r->Err_0 == e,
            },
    {
        let u: UserData = match &q.access_token {
            Some(_) => match user {
                Some(u) => u,
                None => {
                    return Err(RequestErr::Unauthorized);
                },
            },
            None => {
                if whitelist_mode {
                    return Err(RequestErr::Unauthorized);
                }
                let p = UserData::public();
                proof {
                    assert(!p.has_scope(Scope::Statuses) && !p.has_scope(Scope::Lists));
                }
                p
            },
        };
        let timeline = match Timeline::from_query_and_user(&q, &u, tag_id, owns_list) {
            Ok(t) => t,
            Err(e) => {
                return Err(e);
            },
        };
        let hashtag_name = match timeline.0 {
            Stream::Hashtag(_) => Some(q.hashtag),
            _ => None,
        };
        Ok(
            Subscription {
                timeline,
                allowed_langs: u.allowed_langs,
                blocks,
                hashtag_name,
                access_token: q.access_token,
            },
        )
    }
}

/// The stream that each server-sent-events endpoint path, below
/// `/api/v1/streaming/`, serves.
pub open spec fn sse_route(path: Seq<char>) -> Option<Seq<char>> {
    if path == "user/notification"@ {
        Some("user:notification"@)
    } else if path == "user"@ {
        Some("user"@)
    } else if path == "public/local"@ {
        Some("public:local"@)
    } else if path == "public"@ {
        Some("public"@)
    } else if path == "direct"@ {
        Some("direct"@)
    } else if path == "hashtag/local"@ {
        Some("hashtag:local"@)
    } else if path == "hashtag"@ {
        Some("hashtag"@)
    } else if path == "list"@ {
        Some("list"@)
    } else {
        None
    }
}

/// The stream name for a server-sent-events endpoint path, if it is one.
pub fn sse_stream_name(path: &str) -> (r: Option<String>)
    ensures
        match sse_route(path@) {
            Some(n) => r is Some && r->0@ == n,
            None => r is None,
        },
{
    let p = chars_of(path);
    let p = p.as_slice();
    if seg_eq(p, "user/notification") {
        Some(String::from_str("user:notification"))
    } else if seg_eq(p, "user") {
        Some(String::from_str("user"))
    } else if seg_eq(p, "public/local") {
        Some(String::from_str("public:local"))
    } else if seg_eq(p, "public") {
        Some(String::from_str("public"))
    } else if seg_eq(p, "direct") {
        Some(String::from_str("direct"))
    } else if seg_eq(p, "hashtag/local") {
        Some(String::from_str("hashtag:local"))
    } else if seg_eq(p, "hashtag") {
        Some(String::from_str("hashtag"))
    } else if seg_eq(p, "list") {
        Some(String::from_str("list"))
    } else {
        None
    }
}

} // verus!
