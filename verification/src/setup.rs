//! First-run setup of a server: when it is needed, and what it asks.

use crate::cli::{Cli, Command};
use crate::text::{byte_len, chars_of, split_once, string_of, trim_chars};
use crate::text::{
    first_match, law_trimmed, lemma_split_first, lemma_trimmed_padded, matches_at,
    spec_is_whitespace, split_first, trimmed, utf8_len,
};
use vstd::prelude::*;

verus! {

/// Whether nothing configures the server.
pub open spec fn setup_needed(config_named: bool, default_exists: bool, has_secret: bool) -> bool {
    !config_named && !default_exists && !has_secret
}

/// Any one of a named config file, a default config file and a secret is enough to start without
/// setup.
pub proof fn law_configured_skips_setup(other: bool, another: bool)
    ensures
        !setup_needed(true, other, another),
        !setup_needed(other, true, another),
        !setup_needed(other, another, true),
        setup_needed(false, false, false),
{
}

/// Setup runs when nothing configures the server: no config file was named, the default one does
/// not exist, and there is no secret.
pub fn needs_setup(config_named: bool, default_exists: bool, has_secret: bool) -> (r: bool)
    ensures
        r == setup_needed(config_named, default_exists, has_secret),
{
    !config_named && !default_exists && !has_secret
}

/// Whether the live dashboard is shown.
pub open spec fn dashboard_wanted(cli: Cli, terminal: bool) -> bool {
    !cli.no_banner && terminal && (cli.command is Client || cli.command is Join)
}

/// The dashboard is for clients, on a terminal, unless it was turned off.
pub proof fn law_dashboard_for_clients(cli: Cli, terminal: bool)
    ensures
        dashboard_wanted(cli, terminal) ==> terminal && !cli.no_banner,
        cli.command is Server || cli.command is Service || cli.command is GenToken
            ==> !dashboard_wanted(cli, terminal),
        !cli.no_banner && (cli.command is Client || cli.command is Join) ==> dashboard_wanted(
            cli,
            true,
        ),
{
}

/// A client on an interactive terminal gets the live dashboard.
pub fn wants_dashboard(cli: &Cli, terminal: bool) -> (r: bool)
    ensures
        r == dashboard_wanted(*cli, terminal),
{
    !cli.no_banner && terminal && matches!(cli.command, Command::Client(_) | Command::Join(_))
}

/// The body of an HTTP response: what stands between the first blank line and the next one.
pub open spec fn response_body(response: Seq<char>) -> Option<Seq<char>> {
    match split_first(response, "\r\n\r\n"@) {
        None => None,
        Some((_, rest)) => Some(
            match split_first(rest, "\r\n\r\n"@) {
                Some((body, _)) => body,
                None => rest,
            },
        ),
    }
}

/// The public address that an HTTP response tells: a short, non-blank body.
pub open spec fn told_address(response: Seq<char>) -> Option<Seq<char>> {
    match response_body(response) {
        None => None,
        Some(body) => if trimmed(body).len() > 0 && utf8_len(trimmed(body)) < 64 {
            Some(trimmed(body))
        } else {
            None
        },
    }
}

/// Read the public address that an address service tells.
pub fn read_public_address(response: &str) -> (r: Option<String>)
    ensures
        match r {
            Some(address) => told_address(response@) == Some(address@),
            None => told_address(response@) is None,
        },
{
    let chars = chars_of(response);
    let blank = chars_of("\r\n\r\n");
    match split_once(&chars, &blank) {
        None => None,
        Some((_, rest)) => {
            let body = match split_once(rest, &blank) {
                Some((body, _)) => body,
                None => rest,
            };
            let t = trim_chars(body);
            let text = string_of(t);
            if t.len() > 0 && byte_len(&text) < 64 {
                Some(text)
            } else {
                None
            }
        },
    }
}

/// The answer that a line gives to a prompt with a default.
pub open spec fn answer(line: Seq<char>, default: Seq<char>) -> Seq<char> {
    if trimmed(line).len() > 0 {
        trimmed(line)
    } else {
        default
    }
}

/// An answer is what was entered, without the whitespace around it; entering nothing but whitespace
/// takes the default as it is.
pub proof fn law_prompt_answers(
    left: Seq<char>,
    text: Seq<char>,
    right: Seq<char>,
    default: Seq<char>,
)
    requires
        forall|i: int| 0 <= i < left.len() ==> spec_is_whitespace(#[trigger] left[i]),
        forall|i: int| 0 <= i < right.len() ==> spec_is_whitespace(#[trigger] right[i]),
        text.len() > 0,
        !spec_is_whitespace(text[0]),
        !spec_is_whitespace(text.last()),
    ensures
        answer(left + text + right, default) == text,
        answer(left, default) == default,
{
    lemma_trimmed_padded(left, text, right);
    law_trimmed(left);
}

/// The answer to a prompt: the line that was entered, or the default if it is blank.
pub fn prompt_answer(line: &str, default: &str) -> (r: String)
    ensures
        r@ == answer(line@, default@),
{
    let chars = chars_of(line);
    let t = trim_chars(&chars);
    if t.len() > 0 {
        string_of(t)
    } else {
        default.to_string()
    }
}

/// The address that an HTTP response tells is its body, without whitespace around it, if the body
/// is not blank and short enough for an address. A response without a body tells none.
pub proof fn law_response_tells_body(head: Seq<char>, body: Seq<char>)
    requires
        forall|i: int| !#[trigger] matches_at(head, "\r\n\r\n"@, i),
        forall|i: int| !#[trigger] matches_at(body, "\r\n\r\n"@, i),
        head.len() > 0 && head.last() != '\r' && head.last() != '\n',
    ensures
        ({
            let told = told_address(head + "\r\n\r\n"@ + body);
            &&& 0 < trimmed(body).len() && utf8_len(trimmed(body)) < 64 ==> told == Some(
                trimmed(body),
            )
            &&& trimmed(body).len() == 0 || utf8_len(trimmed(body)) >= 64 ==> told is None
        }),
        told_address(head) is None,
{
    reveal_strlit("\r\n\r\n");
    let pat = "\r\n\r\n"@;
    let s = head + pat + body;
    let i = head.len() as int;
    assert(s.subrange(i, i + 4) =~= pat);
    assert forall|j: int| 0 <= j < i implies !#[trigger] matches_at(s, pat, j) by {
        if matches_at(s, pat, j) {
            let m = s.subrange(j, j + 4);
            assert(m[0] == s[j] && m[1] == s[j + 1] && m[2] == s[j + 2] && m[3] == s[j + 3]);
            if j + 4 <= i {
                assert(head.subrange(j, j + 4) =~= m);
                assert(matches_at(head, pat, j));
            } else {
                assert(s[i - 1] == head.last());
                assert(m[i - 1 - j] == head.last());
                assert(m[i - 1 - j] == pat[i - 1 - j]);
            }
        }
    }
    assert(first_match(s, pat, i));
    lemma_split_first(s, pat, i);
    assert(s.take(i) =~= head);
    assert(s.skip(i + 4) =~= body);
}

}
