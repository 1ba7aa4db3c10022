//! Users as the request path sees them, and the stand-in user store.

use crate::text::{chars_of, seg_eq};
use vstd::prelude::*;
use vstd::string::*;

verus! {

/// What an access token lets its holder read.
#[derive(Clone, Copy, Debug, PartialEq, Eq, Hash, Structural)]
pub enum Scope {
    Read,
    Statuses,
    Notifications,
    Lists,
}

/// Who a user blocks, and who blocks them.
pub struct Blocks {
    pub blocked_domains: Vec<String>,
    pub blocked_users: Vec<i64>,
    pub blocking_users: Vec<i64>,
}

impl Blocks {
    pub fn none() -> (r: Blocks)
        ensures
            r.blocked_domains@.len() == 0,
            r.blocked_users@.len() == 0,
            r.blocking_users@.len() == 0,
    {
        Blocks { blocked_domains: Vec::new(), blocked_users: Vec::new(), blocking_users: Vec::new() }
    }
}

/// An authenticated user, or the anonymous one.
pub struct UserData {
    pub id: i64,
    pub allowed_langs: Vec<String>,
    pub scopes: Vec<Scope>,
}

/// The id of the anonymous user.
pub const PUBLIC_USER_ID: i64 = -1;

impl UserData {
    /// The anonymous user: no id, no languages, no scopes.
    pub fn public() -> (r: UserData)
        ensures
            r.id == PUBLIC_USER_ID,
            r.allowed_langs@.len() == 0,
            r.scopes@.len() == 0,
    {
        UserData { id: PUBLIC_USER_ID, allowed_langs: Vec::new(), scopes: Vec::new() }
    }

    pub open spec fn has_scope(&self, s: Scope) -> bool {
        self.scopes@.contains(s)
    }

    /// Whether the user holds the scope `s`.
    pub fn holds(&self, s: Scope) -> (r: bool)
        ensures
            r == self.has_scope(s),
    {
        let mut i: usize = 0;
        while i < self.scopes.len()
            invariant
                0 <= i <= self.scopes@.len(),
                forall|k: int| 0 <= k < i ==> self.scopes@[k] != s,
            decreases self.scopes@.len() - i,
        {
            if self.scopes[i] == s {
                return true;
            }
            i = i + 1;
        }
        false
    }
}

/// Whether the token scope names `names` grant `s`: `read` grants every
/// reading scope; `read:statuses`, `read:notifications` and `read:lists`
/// grant one each; other names grant nothing.
pub open spec fn grants(names: Seq<Seq<char>>, s: Scope) -> bool {
    names.contains("read"@) || match s {
        Scope::Read => false,
        Scope::Statuses => names.contains("read:statuses"@),
        Scope::Notifications => names.contains("read:notifications"@),
        Scope::Lists => names.contains("read:lists"@),
    }
}

pub open spec fn texts_of(v: Seq<String>) -> Seq<Seq<char>> {
    Seq::new(v.len(), |i: int| v[i]@)
}

/// The user store that requests are checked against; this one knows a
/// single test user.
#[derive(Clone, Copy, Debug)]
pub struct PostgresPool;

impl PostgresPool {
    pub fn new() -> (r: PostgresPool) {
        PostgresPool
    }
}

/// The row for an access token: the user's id, languages and scope names.
/// The token `TEST_USER` belongs to user 1 with the scopes `read`, `write`
/// and `follow`; any other token gives the anonymous id and nothing else.
pub fn query_for_user_data(access_token: &str, _pg_pool: PostgresPool) -> (r: (
    i64,
    Option<Vec<String>>,
    Vec<String>,
))
    ensures
        access_token@ == "TEST_USER"@ ==> r.0 == 1 && r.1 is None && texts_of(r.2@) == seq![
            "read"@,
            "write"@,
            "follow"@,
        ],
        access_token@ != "TEST_USER"@ ==> r.0 == PUBLIC_USER_ID && r.1 is None && r.2@.len() == 0,
{
    let token = chars_of(access_token);
    if seg_eq(token.as_slice(), "TEST_USER") {
        let mut scopes: Vec<String> = Vec::new();
        scopes.push(String::from_str("read"));
        scopes.push(String::from_str("write"));
        scopes.push(String::from_str("follow"));
        proof {
            assert(texts_of(scopes@) =~= seq!["read"@, "write"@, "follow"@]);
        }
        (1, None, scopes)
    } else {
        (PUBLIC_USER_ID, None, Vec::new())
    }
}

/// The owner of a list: list 1 belongs to user 1, no other list exists.
pub fn query_list_owner(list_id: i64, _pg_pool: PostgresPool) -> (r: Option<i64>)
    ensures
        r == (if list_id == 1 { Some(1i64) } else { None::<i64> }),
{
    match list_id {
        1 => Some(1),
        _ => None,
    }
}

/// Whether any of `names` is the text of `lit`.
fn names_contain(names: &Vec<String>, lit: &str) -> (r: bool)
    ensures
        r == texts_of(names@).contains(lit@),
{
    let mut i: usize = 0;
    while i < names.len()
        invariant
            0 <= i <= names@.len(),
            forall|k: int| 0 <= k < i ==> names@[k]@ != lit@,
        decreases names@.len() - i,
    {
        let c = chars_of(names[i].as_str());
        if seg_eq(c.as_slice(), lit) {
            proof {
                assert(texts_of(names@)[i as int] == lit@);
            }
            return true;
        }
        i = i + 1;
    }
    proof {
        if texts_of(names@).contains(lit@) {
            let k = choose|k: int| 0 <= k < texts_of(names@).len() && texts_of(names@)[k] == lit@;
            assert(names@[k]@ == lit@);
        }
    }
    false
}

/// The user that an access token belongs to, with the scopes its scope
/// names grant. A token that belongs to nobody gives `None`.
pub fn select_user(access_token: &str, pool: PostgresPool) -> (r: Option<UserData>)
    ensures
        ({
            let row = query_row(access_token@);
            match r {
                None => row.0 == PUBLIC_USER_ID,
                Some(u) => row.0 != PUBLIC_USER_ID && u.id == row.0 && u.allowed_langs@.len() == 0
                    && u.scopes@.no_duplicates()
                    && forall|s: Scope| #[trigger] u.has_scope(s) == grants(row.1, s),
            }
        }),
{
    let (id, langs, names) = query_for_user_data(access_token, pool);
    if id == PUBLIC_USER_ID {
        return None;
    }
    let read = names_contain(&names, "read");
    let statuses = read || names_contain(&names, "read:statuses");
    let notifications = read || names_contain(&names, "read:notifications");
    let lists = read || names_contain(&names, "read:lists");
    let mut scopes: Vec<Scope> = Vec::new();
    if read {
        scopes.push(Scope::Read);
    }
    if statuses {
        scopes.push(Scope::Statuses);
    }
    if notifications {
        scopes.push(Scope::Notifications);
    }
    if lists {
        scopes.push(Scope::Lists);
    }
    let allowed_langs = match langs {
        Some(l) => l,
        None => Vec::new(),
    };
    let u = UserData { id, allowed_langs, scopes };
    proof {
        assert forall|s: Scope| #[trigger] u.has_scope(s) == grants(texts_of(names@), s) by {
            match s {
                Scope::Read => if read { assert(u.scopes@[0] == Scope::Read); },
                Scope::Statuses => if statuses {
                    assert(u.scopes@.contains(Scope::Statuses)) by {
                        let k: int = if read { 1 } else { 0 };
                        assert(u.scopes@[k] == Scope::Statuses);
                    }
                },
                Scope::Notifications => if notifications {
                    let k: int = (if read { 1int } else { 0int }) + (if statuses { 1int } else { 0int });
                    assert(u.scopes@[k] == Scope::Notifications);
                },
                Scope::Lists => if lists {
                    let k: int = (if read { 1int } else { 0int }) + (if statuses { 1int } else { 0int }) + (if notifications { 1int } else { 0int });
                    assert(u.scopes@[k] == Scope::Lists);
                },
            }
        }
    }
    Some(u)
}

/// The row that the store gives for a token: its id and scope names.
pub open spec fn query_row(token: Seq<char>) -> (i64, Seq<Seq<char>>) {
    if token == "TEST_USER"@ {
        (1, seq!["read"@, "write"@, "follow"@])
    } else {
        (PUBLIC_USER_ID, Seq::empty())
    }
}

} // verus!
