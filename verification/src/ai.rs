//! The optional categorisation assistant: which model it talks to, whether
//! the data leaves the machine, and what its suggestions look like.
//!
//! The application works without it: deterministic rules cover the normal
//! case. By default it points at a local model, so that no movement leaves the
//! machine.
use vstd::prelude::*;

use crate::text::{chars_of, push_str, starts_with_seq, str_eq, string_from_str};

verus! {

/// Key under which the assistant's configuration is stored.
pub const SETTINGS_KEY: &'static str = "ai.provider";

/// Default endpoint of a local Ollama.
pub const DEFAULT_OLLAMA_ENDPOINT: &'static str = "http://127.0.0.1:11434";

/// Default model.
pub const DEFAULT_OLLAMA_MODEL: &'static str = "qwen2.5:7b";

/// From this confidence on, a suggestion is considered reliable: a model that
/// recognises the merchant answers above 90, one that does not stays between
/// 30 and 45.
pub const CONFIDENT_SUGGESTION: u8 = 70;

#[derive(Debug, Clone, PartialEq, Eq)]
pub enum AiProvider {
    /// No assistant: rules only. The default.
    Disabled,
    /// A local model served by Ollama.
    Ollama { endpoint: String, model: String },
}

impl Default for AiProvider {
    fn default() -> (r: AiProvider)
        ensures
            r is Disabled,
    {
        AiProvider::Disabled
    }
}

/// `s` with every leading copy of `prefix` removed (`str::trim_start_matches`).
pub open spec fn strip_prefix_all(s: Seq<char>, prefix: Seq<char>) -> Seq<char>
    decreases s.len(),
{
    if prefix.len() > 0 && starts_with_seq(s, prefix) {
        strip_prefix_all(s.skip(prefix.len() as int), prefix)
    } else {
        s
    }
}

/// The part of `s` before the first `/` or `:`.
pub open spec fn before_separator(s: Seq<char>) -> Seq<char>
    decreases s.len(),
{
    if s.len() == 0 {
        s
    } else if s[0] == '/' || s[0] == ':' {
        Seq::empty()
    } else {
        seq![s[0]] + before_separator(s.drop_first())
    }
}

/// The part of `s` before the first `]`.
pub open spec fn before_closing_bracket(s: Seq<char>) -> Seq<char>
    decreases s.len(),
{
    if s.len() == 0 {
        s
    } else if s[0] == ']' {
        Seq::empty()
    } else {
        seq![s[0]] + before_closing_bracket(s.drop_first())
    }
}

/// The host an endpoint names, scheme and port left out. An IPv6 address is
/// written between brackets (`http://[::1]:11434`): the host is what stands
/// between them.
pub open spec fn endpoint_host(endpoint: Seq<char>) -> Seq<char> {
    let s = strip_prefix_all(strip_prefix_all(endpoint, "http://"@), "https://"@);
    if s.len() > 0 && s[0] == '[' {
        before_closing_bracket(s.drop_first())
    } else {
        before_separator(s)
    }
}

/// Whether the host is this machine.
pub open spec fn is_loopback_host(host: Seq<char>) -> bool {
    host == "localhost"@ || host == "127.0.0.1"@ || host == "::1"@ || host == "0.0.0.0"@
}

/// Whether data sent with `provider` leaves the machine.
pub open spec fn provider_leaves_the_machine(provider: AiProvider) -> bool {
    match provider {
        AiProvider::Disabled => false,
        AiProvider::Ollama { endpoint, .. } => !is_loopback_host(endpoint_host(endpoint@)),
    }
}

fn strip_prefix_all_exec(s: Vec<char>, prefix: &str) -> (r: Vec<char>)
    ensures
        r@ == strip_prefix_all(s@, prefix@),
{
    let p = chars_of(prefix);
    let mut rest = s;
    while p.len() > 0 && crate::text::occurs_at_exec(&rest, &p, 0)
        invariant
            p@ == prefix@,
            strip_prefix_all(rest@, p@) == strip_prefix_all(s@, p@),
        decreases rest.len(),
    {
        let mut next: Vec<char> = Vec::new();
        let mut i: usize = p.len();
        while i < rest.len()
            invariant
                p.len() <= i <= rest.len(),
                next@ == rest@.subrange(p.len() as int, i as int),
            decreases rest.len() - i,
        {
            next.push(rest[i]);
            assert(rest@.subrange(p.len() as int, i + 1) =~= rest@.subrange(p.len() as int, i as int).push(
                rest@[i as int],
            ));
            i = i + 1;
        }
        assert(next@ =~= rest@.skip(p.len() as int));
        rest = next;
    }
    rest
}

/// The host `endpoint` names.
fn endpoint_host_exec(endpoint: &str) -> (r: Vec<char>)
    ensures
        r@ == endpoint_host(endpoint@),
{
    let s = strip_prefix_all_exec(chars_of(endpoint), "http://");
    let s = strip_prefix_all_exec(s, "https://");
    if s.len() > 0 && s[0] == '[' {
        bracketed_host(&s)
    } else {
        unbracketed_host(&s)
    }
}

/// The host of an address written between brackets: what follows `[`, up to `]`.
fn bracketed_host(s: &Vec<char>) -> (r: Vec<char>)
    requires
        s.len() > 0,
    ensures
        r@ == before_closing_bracket(s@.drop_first()),
{
    let mut host: Vec<char> = Vec::new();
    let mut i: usize = 1;
    assert(s@.skip(1) =~= s@.drop_first());
    assert(host@ + before_closing_bracket(s@.skip(1)) =~= before_closing_bracket(s@.drop_first()));
    while i < s.len() && s[i] != ']'
        invariant
            1 <= i <= s.len(),
            host@ + before_closing_bracket(s@.skip(i as int)) == before_closing_bracket(
                s@.drop_first(),
            ),
        decreases s.len() - i,
    {
        let ghost rest = s@.skip(i as int);
        assert(rest.drop_first() =~= s@.skip(i + 1));
        assert(rest[0] == s@[i as int]);
        host.push(s[i]);
        assert(host@ + before_closing_bracket(s@.skip(i + 1)) =~= (host@.drop_last() + (seq![
            s@[i as int],
        ] + before_closing_bracket(rest.drop_first()))));
        i = i + 1;
    }
    proof {
        let rest = s@.skip(i as int);
        if i < s.len() {
            assert(rest[0] == s@[i as int]);
        } else {
            assert(rest.len() == 0);
        }
        assert(host@ + before_closing_bracket(rest) =~= host@);
    }
    host
}

/// The host of an address written without brackets: up to the first `/` or `:`.
fn unbracketed_host(s: &Vec<char>) -> (r: Vec<char>)
    ensures
        r@ == before_separator(s@),
{
    let mut host: Vec<char> = Vec::new();
    let mut i: usize = 0;
    assert(s@.skip(0) =~= s@);
    assert(host@ + before_separator(s@) =~= before_separator(s@));
    while i < s.len() && s[i] != '/' && s[i] != ':'
        invariant
            i <= s.len(),
            host@ + before_separator(s@.skip(i as int)) == before_separator(s@),
        decreases s.len() - i,
    {
        let ghost rest = s@.skip(i as int);
        assert(rest.drop_first() =~= s@.skip(i + 1));
        assert(rest[0] == s@[i as int]);
        host.push(s[i]);
        assert(host@ + before_separator(s@.skip(i + 1)) =~= (host@.drop_last() + (seq![s@[i as int]]
            + before_separator(rest.drop_first()))));
        i = i + 1;
    }
    proof {
        let rest = s@.skip(i as int);
        if i < s.len() {
            assert(rest[0] == s@[i as int]);
        } else {
            assert(rest.len() == 0);
        }
        assert(host@ + before_separator(rest) =~= host@);
    }
    host
}

/// Whether `endpoint` is on this machine.
fn is_loopback(endpoint: &str) -> (r: bool)
    ensures
        r == is_loopback_host(endpoint_host(endpoint@)),
{
    let host = endpoint_host_exec(endpoint);
    crate::text::chars_eq_str(&host, "localhost") || crate::text::chars_eq_str(&host, "127.0.0.1")
        || crate::text::chars_eq_str(&host, "::1") || crate::text::chars_eq_str(&host, "0.0.0.0")
}

impl AiProvider {
    /// The local model, at its default endpoint.
    pub fn ollama_default() -> (r: AiProvider)
        ensures
            r matches AiProvider::Ollama { endpoint, model } && endpoint@ == DEFAULT_OLLAMA_ENDPOINT@
                && model@ == DEFAULT_OLLAMA_MODEL@,
    {
        AiProvider::Ollama {
            endpoint: string_from_str(DEFAULT_OLLAMA_ENDPOINT),
            model: string_from_str(DEFAULT_OLLAMA_MODEL),
        }
    }

    pub fn is_enabled(&self) -> (r: bool)
        ensures
            r == !(*self is Disabled),
    {
        match self {
            AiProvider::Disabled => false,
            AiProvider::Ollama { .. } => true,
        }
    }

    /// Whether the data leaves the machine with this configuration; the
    /// interface warns before sending anything.
    pub fn leaves_the_machine(&self) -> (r: bool)
        ensures
            r == provider_leaves_the_machine(*self),
    {
        match self {
            AiProvider::Disabled => false,
            AiProvider::Ollama { endpoint, .. } => !is_loopback(endpoint.as_str()),
        }
    }
}

#[derive(Debug, Clone, PartialEq, Eq)]
pub enum AiError {
    Disabled,
    Unreachable { endpoint: String, reason: String },
    UnusableAnswer,
}

/// The message shown for an error.
pub open spec fn ai_error_text(e: AiError) -> Seq<char> {
    match e {
        AiError::Disabled => "the assistant is disabled"@,
        AiError::Unreachable { endpoint, reason } => "could not reach the model at "@ + endpoint@
            + ": "@ + reason@,
        AiError::UnusableAnswer => "the model answered something that is not a usable suggestion list"@,
    }
}

impl AiError {
    /// The message shown for this error.
    pub fn message(&self) -> (r: String)
        ensures
            r@ == ai_error_text(*self),
    {
        match self {
            AiError::Disabled => string_from_str("the assistant is disabled"),
            AiError::Unreachable { endpoint, reason } => {
                let mut text = string_from_str("could not reach the model at ");
                push_str(&mut text, endpoint.as_str());
                push_str(&mut text, ": ");
                push_str(&mut text, reason.as_str());
                text
            },
            AiError::UnusableAnswer => string_from_str(
                "the model answered something that is not a usable suggestion list",
            ),
        }
    }
}

/// The model's suggestion for one movement of a batch.
#[derive(Debug, Clone, PartialEq, Eq)]
pub struct Suggestion {
    /// Position of the movement in the batch sent.
    pub index: usize,
    pub category_name: String,
    /// Confidence declared by the model, 0 to 100. Never applied alone: the
    /// interface always asks before touching the data.
    pub confidence: u8,
}

impl Suggestion {
    /// A doubtful suggestion is shown apart: accepting it blindly would also
    /// teach a wrong rule.
    pub fn is_confident(&self) -> (r: bool)
        ensures
            r == (self.confidence >= CONFIDENT_SUGGESTION),
    {
        self.confidence >= CONFIDENT_SUGGESTION
    }
}

} // verus!
