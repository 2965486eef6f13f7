//! Plain data of the login flows: the requests and answers the registry
//! exchanges, and the client kind a login chooses.

use vstd::prelude::*;
use vstd::string::StrSliceExecFns;

verus! {

/// Which surface asked for the login.
#[derive(Debug, Clone, PartialEq, Eq, Structural)]
pub enum ClientType {
    Web,
    Cli,
}

impl Default for ClientType {
    fn default() -> (r: Self)
        ensures
            r == ClientType::Web,
    {
        ClientType::Web
    }
}

impl ClientType {
    /// The client kind a wire name denotes; the empty name means the web
    /// client, anything else is refused.
    pub fn from_str(s: &str) -> (r: Result<Self, String>)
        ensures
            match r {
                Ok(c) => (c == ClientType::Web && (s@ == "web"@ || s@ == Seq::<char>::empty()))
                    || (c == ClientType::Cli && s@ == "cli"@),
                Err(m) => s@ != "web"@ && s@ != "cli"@ && s@ != Seq::<char>::empty() && m@
                    == "Invalid client type"@,
            },
    {
        if crate::text::str_eq(s, "web") {
            Ok(ClientType::Web)
        } else if crate::text::str_eq(s, "cli") {
            Ok(ClientType::Cli)
        } else if s.unicode_len() == 0 {
            Ok(ClientType::Web)
        } else {
            Err("Invalid client type".to_owned())
        }
    }
}

/// What an authorization round trip carries through the state parameter.
#[derive(Debug, Clone, PartialEq)]
pub struct OAuthState {
    pub origin_uri: String,
    pub redirect_uri: Option<String>,
    pub code_challenge: String,
    pub state: String,
    pub client_type: ClientType,
}

/// The `|`-separated fields of a text, in order; a text without separators
/// is one field.
pub open spec fn split_bar(t: Seq<char>) -> Seq<Seq<char>>
    decreases t.len(),
        via split_bar_dec
{
    let i = crate::text::char_index(t, '|');
    if i < t.len() {
        seq![t.take(i)] + split_bar(t.skip(i + 1))
    } else {
        seq![t]
    }
}

#[via_fn]
proof fn split_bar_dec(t: Seq<char>) {
    crate::text::lemma_char_index(t, '|');
}

impl OAuthState {
    /// Reassembles the state from its decoded text: five `|`-separated
    /// fields, in order the state, the origin, the redirect (empty for
    /// none), the code challenge and the client kind.
    pub fn from_decoded(decoded: &str) -> (r: Result<OAuthState, String>)
        ensures
            match r {
                Ok(st) => {
                    let parts = split_bar(decoded@);
                    &&& parts.len() == 5
                    &&& st.state@ == parts[0]
                    &&& st.origin_uri@ == parts[1]
                    &&& (match st.redirect_uri {
                        Some(u) => parts[2].len() > 0 && u@ == parts[2],
                        None => parts[2].len() == 0,
                    })
                    &&& st.code_challenge@ == parts[3]
                    &&& ((st.client_type == ClientType::Web && (parts[4] == "web"@ || parts[4]
                        == Seq::<char>::empty())) || (st.client_type == ClientType::Cli && parts[4]
                        == "cli"@))
                },
                Err(_) => split_bar(decoded@).len() != 5 || (split_bar(decoded@)[4] != "web"@
                    && split_bar(decoded@)[4] != "cli"@ && split_bar(decoded@)[4] != Seq::<
                    char,
                >::empty()),
            },
    {
        let ghost tq = decoded@;
        let cs = crate::text::chars_of(decoded);
        let n = cs.len();
        let mut parts: Vec<String> = Vec::new();
        let ghost gp: Seq<Seq<char>> = Seq::empty();
        let mut gpt = Ghost(gp);
        let mut start: usize = 0;
        let mut i: usize = 0;
        proof {
            assert(Seq::<Seq<char>>::empty() + split_bar(tq.skip(0)) =~= split_bar(tq.skip(0)));
            assert(tq.skip(0) =~= tq);
        }
        while i < n
            invariant
                cs@ == tq,
                n == tq.len(),
                start <= i <= n,
                gpt@.len() == parts@.len(),
                forall|k: int| 0 <= k < parts@.len() ==> (#[trigger] parts@[k])@ == gpt@[k],
                split_bar(tq) == gpt@ + split_bar(tq.skip(start as int)),
                forall|j: int| start <= j < i ==> tq[j] != '|',
            decreases n - i,
        {
            if cs[i] == '|' {
                let piece = crate::text::substring_chars(&cs, start, i);
                proof {
                    let u = tq.skip(start as int);
                    assert forall|k: int| 0 <= k < i - start implies u[k] != '|' by {
                        assert(u[k] == tq[start + k]);
                    }
                    assert(u[i - start] == tq[i as int]);
                    crate::text::lemma_char_index_is(u, '|', i - start);
                    assert(u.take(i - start) =~= tq.subrange(start as int, i as int));
                    assert(u.skip(i - start + 1) =~= tq.skip(i + 1));
                    assert(gpt@ + split_bar(u) =~= (gpt@ + seq![tq.subrange(
                        start as int,
                        i as int,
                    )]) + split_bar(tq.skip(i + 1)));
                }
                parts.push(piece);
                gpt = Ghost(gpt@.push(tq.subrange(start as int, i as int)));
                start = i + 1;
            }
            i = i + 1;
        }
        let piece = crate::text::substring_chars(&cs, start, n);
        proof {
            let u = tq.skip(start as int);
            assert forall|k: int| 0 <= k < u.len() implies u[k] != '|' by {
                assert(u[k] == tq[start + k]);
            }
            crate::text::lemma_char_index_missing(u, '|');
            assert(split_bar(u) =~= seq![u]);
            assert(u =~= tq.subrange(start as int, n as int));
            assert(gpt@ + split_bar(u) =~= gpt@.push(tq.subrange(start as int, n as int)));
        }
        parts.push(piece);
        gpt = Ghost(gpt@.push(tq.subrange(start as int, n as int)));
        proof {
            assert(split_bar(tq) == gpt@);
        }
        if parts.len() != 5 {
            return Err("Invalid state format".to_owned());
        }
        let client_type = match ClientType::from_str(parts[4].as_str()) {
            Ok(c) => c,
            Err(e) => {
                return Err(e);
            },
        };
        let redirect = if parts[2].as_str().unicode_len() == 0 {
            None
        } else {
            Some(parts[2].clone())
        };
        Ok(
            OAuthState {
                state: parts[0].clone(),
                origin_uri: parts[1].clone(),
                redirect_uri: redirect,
                code_challenge: parts[3].clone(),
                client_type,
            },
        )
    }
}

/// A password login request.
#[derive(Debug, Clone, PartialEq)]
pub struct LoginPasswordRequest {
    pub username: String,
    pub password: String,
}

/// What a password login answers.
#[derive(Debug, Clone, PartialEq)]
pub struct LoginPasswordResponse {
    pub access_token: String,
    pub refresh_token: String,
    pub token_type: String,
    pub expires_in: i64,
}

/// Where the browser must be sent to authorize.
#[derive(Debug, Clone, PartialEq)]
pub struct OAuthAuthorizationResponse {
    pub authorization_uri: String,
}

/// What the callback hands back to the registry.
#[derive(Debug, Clone, PartialEq)]
pub struct OAuthCallbackRequest {
    pub code: String,
    pub state: String,
}

/// The tokens an authorization grants.
#[derive(Debug, Clone, PartialEq)]
pub struct OAuthDataResponse {
    pub access_token: String,
    pub refresh_token: String,
    pub token_type: String,
    pub expires_in: u64,
}

/// Who is logged in.
#[derive(Debug, Clone, PartialEq)]
pub struct User {
    pub id: String,
    pub username: String,
    pub email: String,
    pub name: Option<String>,
    pub avatar_url: Option<String>,
    pub provider: String,
    pub provider_id: String,
}

} // verus!
