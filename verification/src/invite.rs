//! Connection code: bundles everything a client needs (server address, pinned certificate
//! fingerprint and shared secret) into one opaque, pasteable string.

use crate::buffer::fits_buffer;
use crate::config::{clone_option, option_view, ServerSettings};
use crate::crypto::{base64_decode, base64_encode};
use crate::crypto::{base64url, lemma_base64url_chars, lemma_base64url_injective};
use crate::text::{chars_eq_str, chars_of, endpoint_string, string_of, trim_chars};
use crate::text::{endpoint_text, lemma_trimmed_padded, spec_is_whitespace, trimmed};
use vstd::prelude::*;
use vstd::slice::slice_subrange;

verus! {

/// What every connection code starts with.
pub const PREFIX: &'static str = "porthole1_";

/// What a client needs to connect.
#[derive(Debug, Clone, PartialEq, Eq)]
pub struct ConnectionInfo {
    pub host: String,
    pub port: u16,
    pub fingerprint: String,
    pub secret: String,
}

impl ConnectionInfo {
    pub fn server_addr(&self) -> (r: String)
        ensures
            r@ == endpoint_text(self.host@, self.port),
    {
        endpoint_string(&self.host, self.port)
    }
}

/// Why a text is no connection code.
#[derive(Debug, Clone, Copy, PartialEq, Eq, Structural)]
pub enum InviteError {
    NotACode,
    Corrupted,
    /// The contents are no connection info.
    InvalidContents,
}

impl InviteError {
    pub open spec fn text(self) -> Seq<char> {
        match self {
            InviteError::NotACode => "that doesn't look like a porthole connection code"@,
            InviteError::Corrupted => "connection code is corrupted"@,
            InviteError::InvalidContents => "connection code has invalid contents"@,
        }
    }

    /// The error in words.
    pub fn message(&self) -> (r: String)
        ensures
            r@ == self.text(),
    {
        match self {
            InviteError::NotACode => {
                "that doesn't look like a porthole connection code".to_string()
            },
            InviteError::Corrupted => "connection code is corrupted".to_string(),
            InviteError::InvalidContents => "connection code has invalid contents".to_string(),
        }
    }
}

/// The connection code of serialized connection info.
pub open spec fn code_text(contents: Seq<u8>) -> Seq<char> {
    PREFIX@ + base64url(contents)
}

/// Whether a code, without the whitespace around it, has the prefix of connection codes.
pub open spec fn has_prefix(code: Seq<char>) -> bool {
    let t = trimmed(code);
    t.len() >= 10 && t.take(10) == PREFIX@
}

/// Encode serialized connection info to a `porthole1_…` connection code.
pub fn encode(contents: &[u8]) -> (r: String)
    requires
        fits_buffer(contents@.len()),
    ensures
        r@ == code_text(contents@),
{
    let mut code = PREFIX.to_string();
    code.append(&base64_encode(contents));
    code
}

/// What a text holds, if it is a connection code.
pub open spec fn decodes(code: Seq<char>, r: Result<Seq<u8>, InviteError>) -> bool {
    match r {
        Ok(contents) => trimmed(code) == code_text(contents),
        Err(InviteError::NotACode) => !has_prefix(code),
        Err(InviteError::Corrupted) => has_prefix(code) && forall|contents: Seq<u8>|
            trimmed(code) != #[trigger] code_text(contents),
        Err(InviteError::InvalidContents) => false,
    }
}

/// Decode a `porthole1_…` connection code to serialized connection info.
pub fn decode(code: &str) -> (r: Result<Vec<u8>, InviteError>)
    ensures
        decodes(
            code@,
            match r {
                Ok(contents) => Ok(contents@),
                Err(e) => Err(e),
            },
        ),
{
    let chars = chars_of(code);
    let t = trim_chars(&chars);
    proof {
        reveal_strlit("porthole1_");
        assert(PREFIX@.len() == 10);
        assert(t@.len() >= 10 ==> t@.subrange(0, 10) =~= t@.take(10));
    }
    if t.len() < 10 || !chars_eq_str(slice_subrange(t, 0, 10), PREFIX) {
        return Err(InviteError::NotACode);
    }
    let rest = slice_subrange(t, 10, t.len());
    proof {
        assert(t@ =~= t@.take(10) + rest@);
        assert forall|contents: Seq<u8>| t@ == #[trigger] code_text(contents) implies rest@
            == base64url(contents) by {
            assert(code_text(contents).skip(10) =~= base64url(contents));
            assert(t@.skip(10) =~= rest@);
        }
    }
    match base64_decode(&string_of(rest)) {
        Some(contents) => Ok(contents),
        None => Err(InviteError::Corrupted),
    }
}

/// A connection code decodes to what it was encoded from, also with whitespace around it, and to
/// nothing else.
pub proof fn law_code_roundtrip(
    left: Seq<char>,
    contents: Seq<u8>,
    right: Seq<char>,
    other: Seq<u8>,
)
    requires
        forall|i: int| 0 <= i < left.len() ==> spec_is_whitespace(#[trigger] left[i]),
        forall|i: int| 0 <= i < right.len() ==> spec_is_whitespace(#[trigger] right[i]),
    ensures
        has_prefix(left + code_text(contents) + right),
        trimmed(left + code_text(contents) + right) == code_text(contents),
        code_text(other) == code_text(contents) ==> other == contents,
{
    reveal_strlit("porthole1_");
    let text = code_text(contents);
    let body = base64url(contents);
    assert(text[0] == 'p');
    if body.len() > 0 {
        lemma_base64url_chars(contents, body.len() - 1);
        assert(text.last() == body.last());
    } else {
        assert(text.last() == '_');
    }
    lemma_trimmed_padded(left, text, right);
    assert(text.take(10) =~= PREFIX@);
    if code_text(other) == text {
        assert(code_text(other).skip(10) =~= base64url(other));
        assert(text.skip(10) =~= body);
        lemma_base64url_injective(other, contents);
    }
}

/// Whether connection info is that of a server, for the fingerprint of its certificate.
pub open spec fn invites(
    settings: ServerSettings,
    fingerprint: Seq<char>,
    info: ConnectionInfo,
) -> bool {
    &&& option_view(settings.public_host) == Some(info.host@)
    &&& info.port == settings.control_port
    &&& info.fingerprint@ == fingerprint
    &&& info.secret@ == settings.secret@
}

/// What clients of a server need, for the fingerprint of its certificate. Without a public host
/// there is nothing to hand out.
pub fn invite_info(settings: &ServerSettings, fingerprint: String) -> (r: Option<ConnectionInfo>)
    ensures
        r is Some <==> settings.public_host is Some,
        r matches Some(info) ==> invites(*settings, fingerprint@, info),
{
    match clone_option(&settings.public_host) {
        Some(host) => Some(
            ConnectionInfo {
                host,
                port: settings.control_port,
                fingerprint,
                secret: settings.secret.clone(),
            },
        ),
        None => None,
    }
}

/// A connection code is handed over whole: whatever whitespace it picks up on the way, what comes
/// out is what went in. It starts with its marker, and a text that does not is no code.
pub proof fn law_code_arrives(
    left: Seq<char>,
    contents: Seq<u8>,
    right: Seq<char>,
    r: Result<Seq<u8>, InviteError>,
    text: Seq<char>,
    s: Result<Seq<u8>, InviteError>,
)
    requires
        forall|i: int| 0 <= i < left.len() ==> spec_is_whitespace(#[trigger] left[i]),
        forall|i: int| 0 <= i < right.len() ==> spec_is_whitespace(#[trigger] right[i]),
        decodes(left + code_text(contents) + right, r),
        decodes(text, s),
    ensures
        r == Ok::<_, InviteError>(contents),
        "porthole1_"@.is_prefix_of(code_text(contents)),
        s == Err::<Seq<u8>, _>(InviteError::NotACode) <==> !"porthole1_"@.is_prefix_of(
            trimmed(text),
        ),
{
    reveal_strlit("porthole1_");
    law_code_roundtrip(left, contents, right, contents);
    if r is Ok {
        law_code_roundtrip(left, contents, right, r->Ok_0);
    } else {
        assert(trimmed(left + code_text(contents) + right) == code_text(contents));
    }
    assert(code_text(contents).take(10) =~= "porthole1_"@);
    let t = trimmed(text);
    if t.len() >= 10 {
        assert(t.take(10) =~= t.subrange(0, 10));
    }
    if s is Ok {
        assert(t == code_text(s->Ok_0));
        assert(t.take(10) =~= "porthole1_"@);
    }
}

}
