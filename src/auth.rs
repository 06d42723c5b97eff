use vstd::prelude::*;

use crate::validation::{email_accepted, has_min_length, is_email};

verus! {

/// The pair of tokens handed out at sign-in.
#[derive(Debug, Clone)]
pub struct Tokens {
    pub access: String,
    pub refresh: String,
}

/// Credentials for signing in.
#[derive(Debug, Clone)]
pub struct SignInData {
    pub email: String,
    pub password: String,
}

/// Details for signing up.
#[derive(Debug, Clone)]
pub struct SignUpData {
    pub email: String,
    pub username: String,
    pub password: String,
}

/// A user record about to be stored.
#[derive(Debug, Clone)]
pub struct CreateUser {
    pub email: String,
    pub username: String,
    pub password_hash: String,
    pub refresh_token_hash: Option<String>,
}

/// The claims carried by a token: the user's id, e-mail and the token's
/// scope ("access" or "refresh").
#[derive(Debug, Clone)]
pub struct JwtCred {
    pub uid: i32,
    pub email: String,
    pub scope: String,
}

/// Why a request carries no usable token.
#[derive(Debug, Clone, Copy, PartialEq, Eq, Structural)]
pub enum AuthError {
    InvalidToken,
    Unauthorized,
}

/// The text after the last space of `s`, or all of `s` when it has none.
pub open spec fn last_word(s: Seq<char>) -> Seq<char>
    decreases s.len(),
{
    if s.len() == 0 {
        s
    } else if s.last() == ' ' {
        Seq::empty()
    } else {
        last_word(s.drop_last()).push(s.last())
    }
}

impl SignInData {
    /// A valid e-mail and a non-empty password.
    pub fn validate(&self) -> (r: bool)
        ensures
            r == (email_accepted(self.email@) && self.password@.len() >= 1),
    {
        is_email(&self.email) && has_min_length(&self.password, 1)
    }
}

impl SignUpData {
    /// A valid e-mail, and a user name and password of at least six
    /// characters each.
    pub fn validate(&self) -> (r: bool)
        ensures
            r == (email_accepted(self.email@) && self.username@.len() >= 6
                && self.password@.len() >= 6),
    {
        is_email(&self.email) && has_min_length(&self.username, 6) && has_min_length(
            &self.password,
            6,
        )
    }
}

impl JwtCred {
    /// The claims, if their scope is `scope_check`.
    pub fn in_scope(self, scope_check: &String) -> (r: Option<JwtCred>)
        ensures
            r == if self.scope@ == scope_check@ {
                Some(self)
            } else {
                None
            },
    {
        if self.scope == *scope_check {
            Some(self)
        } else {
            None
        }
    }
}

/// The token of an `Authorization` header value ("Bearer <token>"): the
/// text after its last space. A request without the header is
/// unauthorized.
pub fn get_token_from_req(header: Option<&str>) -> (r: Result<String, AuthError>)
    ensures
        match header {
            None => r == Err::<String, AuthError>(AuthError::Unauthorized),
            Some(h) => r matches Ok(t) && t@ == last_word(h@),
        },
{
    let h = match header {
        None => {
            return Err(AuthError::Unauthorized);
        },
        Some(h) => h,
    };
    let n = h.unicode_len();
    let mut start = n;
    proof {
        assert(h@.subrange(0, n as int) == h@);
        assert(h@.subrange(n as int, n as int) == Seq::<char>::empty());
        assert(h@ + Seq::<char>::empty() == h@);
    }
    while start > 0 && h.get_char(start - 1) != ' '
        invariant
            start <= n,
            n == h@.len(),
            last_word(h@) == last_word(h@.subrange(0, start as int)) + h@.subrange(
                start as int,
                n as int,
            ),
        decreases start,
    {
        proof {
            let s = h@.subrange(0, start as int);
            assert(s.drop_last() == h@.subrange(0, start - 1));
            assert(h@.subrange(start - 1, n as int) == seq![s.last()] + h@.subrange(
                start as int,
                n as int,
            ));
            assert(last_word(s) == last_word(s.drop_last()).push(s.last()));
            assert(last_word(s.drop_last()).push(s.last()) + h@.subrange(start as int, n as int)
                == last_word(s.drop_last()) + h@.subrange(start - 1, n as int));
        }
        start = start - 1;
    }
    proof {
        assert(last_word(h@.subrange(0, start as int)) == Seq::<char>::empty());
        assert(h@.subrange(0, n as int) == h@);
    }
    let token = h.substring_char(start, n);
    Ok(token.to_owned())
}

} // verus!
