//! The parameters of the `permessage-deflate` extension (RFC 7692) and their
//! negotiation.
use flate2::Compression;
use vstd::prelude::*;
use vstd::string::StrSliceExecFns;

use super::parser::{
    extension_item, is_token, is_token_param, lemma_proposal_round_trip, lemma_split_step_shrinks,
    param_item, param_text, params_text, parsed_params, split_step, trim, Error as ParseError,
    ParamsIterator, Proposal,
};
use super::Error;
use crate::utf8::str_eq;
use crate::proto::Role;

verus! {

broadcast use vstd::seq_lib::group_seq_properties;

/// A compression level of the `flate2` crate, carried through opaquely.
#[verifier::external_type_specification]
#[verifier::external_body]
pub struct ExCompression(Compression);

/// The default compression level, `flate2::Compression::default()`.
///
/// The contract claims nothing of the level: it is carried through
/// opaquely.
#[verifier::external_body]
fn default_compression() -> (r: Compression) {
    Compression::default()
}

/// The name of the extension.
pub const PER_MESSAGE_DEFLATE: &'static str = "permessage-deflate";

/// The parameter by which the client gives up its compression context
/// between messages.
pub const CLIENT_NO_CONTEXT_TAKEOVER: &'static str = "client_no_context_takeover";

/// The parameter by which the server gives up its compression context
/// between messages.
pub const SERVER_NO_CONTEXT_TAKEOVER: &'static str = "server_no_context_takeover";

/// The parameter that limits the client's LZ77 window.
pub const CLIENT_MAX_WINDOW_BITS: &'static str = "client_max_window_bits";

/// The parameter that limits the server's LZ77 window.
pub const SERVER_MAX_WINDOW_BITS: &'static str = "server_max_window_bits";

/// Default LZ77 sliding window size, as the base-2 logarithm of its size.
pub const DEFAULT_MAX_WINDOW_BITS: u8 = 15;

/// The window bits that a parameter value states: one of `9` to `15`,
/// without leading zeros.
pub open spec fn window_bits_value(s: Seq<char>) -> Option<u8> {
    if s == seq!['9'] {
        Some(9)
    } else if s.len() == 2 && s[0] == '1' && '0' <= s[1] <= '5' {
        Some((10 + (s[1] as u32 - '0' as u32)) as u8)
    } else {
        None
    }
}

/// Validates that the parameter for max window bits does not have leading
/// zeroes and is in the range between 9 and 15.
pub fn is_allowed_window_bits(input: &str) -> (r: bool)
    ensures
        r == window_bits_value(input@) is Some,
{
    window_bits(input).is_some()
}

/// The window bits that `input` states, if it is allowed.
fn window_bits(input: &str) -> (r: Option<u8>)
    ensures
        r == window_bits_value(input@),
        r matches Some(b) ==> 9 <= b <= 15,
{
    let n = input.unicode_len();
    if n == 1 {
        if input.get_char(0) == '9' {
            assert(input@ =~= seq!['9']);
            return Some(9);
        }
        return None;
    }
    if n == 2 && input.get_char(0) == '1' {
        let c = input.get_char(1);
        if '0' <= c && c <= '5' {
            let d = (c as u32 - '0' as u32) as u8;
            return Some(10 + d);
        }
    }
    None
}

/// The parameters of the extension, without the compression level.
pub struct DeflateParams {
    pub server_no_context_takeover: bool,
    pub client_no_context_takeover: bool,
    pub server_max_window_bits: u8,
    pub client_max_window_bits: u8,
}

/// The parameters used when none are negotiated.
pub open spec fn default_params() -> DeflateParams {
    DeflateParams {
        server_no_context_takeover: false,
        client_no_context_takeover: false,
        server_max_window_bits: DEFAULT_MAX_WINDOW_BITS,
        client_max_window_bits: DEFAULT_MAX_WINDOW_BITS,
    }
}

/// The configuration of the `permessage-deflate` extension.
#[derive(Clone, Copy, Debug)]
pub struct Configuration {
    /// The compression level to use.
    compression_level: Compression,
    /// Whether the server gives up its compression context between messages.
    server_no_context_takeover: bool,
    /// Whether the client gives up its compression context between messages.
    client_no_context_takeover: bool,
    /// The base-2 logarithm of the server's LZ77 window.
    server_max_window_bits: u8,
    /// The base-2 logarithm of the client's LZ77 window.
    client_max_window_bits: u8,
}

impl View for Configuration {
    type V = DeflateParams;

    closed spec fn view(&self) -> DeflateParams {
        DeflateParams {
            server_no_context_takeover: self.server_no_context_takeover,
            client_no_context_takeover: self.client_no_context_takeover,
            server_max_window_bits: self.server_max_window_bits,
            client_max_window_bits: self.client_max_window_bits,
        }
    }
}

/// What accepting a parameter proposed by the client does: the parameters
/// afterwards, or the error.
pub open spec fn accept_param(p: DeflateParams, key: Seq<char>, value: Option<Seq<char>>) -> Result<
    DeflateParams,
    Error,
> {
    if key == SERVER_NO_CONTEXT_TAKEOVER@ {
        match value {
            None => Ok(DeflateParams { server_no_context_takeover: true, ..p }),
            Some(_) => Err(Error::ParamDisallowsValue),
        }
    } else if key == CLIENT_NO_CONTEXT_TAKEOVER@ {
        match value {
            None => Ok(DeflateParams { client_no_context_takeover: true, ..p }),
            Some(_) => Err(Error::ParamDisallowsValue),
        }
    } else if key == SERVER_MAX_WINDOW_BITS@ {
        match value {
            None => Err(Error::ParamRequiresValue),
            Some(bits) => match window_bits_value(bits) {
                None => Err(Error::InvalidServerMaxWindowBits),
                Some(b) => Ok(DeflateParams { server_max_window_bits: b, ..p }),
            },
        }
    } else if key == CLIENT_MAX_WINDOW_BITS@ {
        match value {
            None => Err(Error::ParamRequiresValue),
            Some(bits) => match window_bits_value(bits) {
                None => Err(Error::InvalidClientMaxWindowBits),
                Some(b) => Ok(DeflateParams { client_max_window_bits: b, ..p }),
            },
        }
    } else {
        Err(Error::UnknownParameter)
    }
}

/// Accepting the client's parameters `rest` (split at `;`, the last one
/// split off if `finished`), from the parameters `p` and the answer `text`:
/// the parameters and the answer afterwards, or the error.
pub open spec fn accept_params(
    p: DeflateParams,
    rest: Seq<char>,
    finished: bool,
    text: Seq<char>,
) -> Result<(DeflateParams, Seq<char>), Error>
    decreases rest.len() + (if finished {
        0nat
    } else {
        1nat
    }),
{
    match split_step(rest, finished, ';') {
        None => Ok((p, text)),
        Some((piece, after, fin)) => match param_item(piece) {
            None => Ok((p, text)),
            Some(Err(e)) => Err(Error::Parsing(e)),
            Some(Ok((key, value))) => match accept_param(p, key, value) {
                Err(e) => Err(e),
                Ok(p2) => accept_params(p2, after, fin, text + param_text(key, value)),
            },
        },
    }
}

/// What checking a parameter answered by the server does: the parameters
/// afterwards, or the error. `proposed` is the client's configuration.
///
/// A client proposes `client_max_window_bits` exactly when its configured
/// window bits differ from the default (see [`client_proposal_text`]); the
/// server may answer that parameter only then.
pub open spec fn verify_param(
    proposed: DeflateParams,
    p: DeflateParams,
    key: Seq<char>,
    value: Option<Seq<char>>,
) -> Result<DeflateParams, Error> {
    if key == SERVER_NO_CONTEXT_TAKEOVER@ {
        match value {
            None => Ok(DeflateParams { server_no_context_takeover: true, ..p }),
            Some(_) => Err(Error::ParamDisallowsValue),
        }
    } else if key == CLIENT_NO_CONTEXT_TAKEOVER@ {
        match value {
            None => Ok(DeflateParams { client_no_context_takeover: true, ..p }),
            Some(_) => Err(Error::ParamDisallowsValue),
        }
    } else if key == SERVER_MAX_WINDOW_BITS@ {
        match value {
            None => Err(Error::ParamRequiresValue),
            Some(bits) => match window_bits_value(bits) {
                None => Err(Error::InvalidServerMaxWindowBits),
                Some(b) => Ok(DeflateParams { server_max_window_bits: b, ..p }),
            },
        }
    } else if key == CLIENT_MAX_WINDOW_BITS@ {
        match value {
            None => Err(Error::ParamRequiresValue),
            Some(bits) => match window_bits_value(bits) {
                None => Err(Error::InvalidClientMaxWindowBits),
                Some(b) => if proposed.client_max_window_bits == DEFAULT_MAX_WINDOW_BITS {
                    Err(Error::DisallowedClientMaxWindowBits)
                } else {
                    Ok(DeflateParams { client_max_window_bits: b, ..p })
                },
            },
        }
    } else {
        Err(Error::UnknownParameter)
    }
}

/// Checking the server's parameters `rest` (split at `;`, the last one split
/// off if `finished`) from the parameters `p`: the parameters afterwards, or
/// the error.
pub open spec fn verify_params(
    proposed: DeflateParams,
    p: DeflateParams,
    rest: Seq<char>,
    finished: bool,
) -> Result<DeflateParams, Error>
    decreases rest.len() + (if finished {
        0nat
    } else {
        1nat
    }),
{
    match split_step(rest, finished, ';') {
        None => Ok(p),
        Some((piece, after, fin)) => match param_item(piece) {
            None => Ok(p),
            Some(Err(e)) => Err(Error::Parsing(e)),
            Some(Ok((key, value))) => match verify_param(proposed, p, key, value) {
                Err(e) => Err(e),
                Ok(p2) => verify_params(proposed, p2, after, fin),
            },
        },
    }
}

/// The decimal text of a window size from 9 to 15.
pub open spec fn window_bits_text(b: u8) -> Seq<char> {
    if b < 10 {
        seq![((48 + b) as u32) as char]
    } else {
        seq!['1', ((38 + b) as u32) as char]
    }
}

/// The decimal text of window bits from 9 to 15.
fn window_bits_str(b: u8) -> (r: &'static str)
    requires
        9 <= b <= 15,
    ensures
        r@ == window_bits_text(b),
{
    let r = match b {
        9 => "9",
        10 => "10",
        11 => "11",
        12 => "12",
        13 => "13",
        14 => "14",
        _ => "15",
    };
    proof {
        reveal_strlit("9");
        reveal_strlit("10");
        reveal_strlit("11");
        reveal_strlit("12");
        reveal_strlit("13");
        reveal_strlit("14");
        reveal_strlit("15");
        assert(r@ =~= window_bits_text(b));
    }
    r
}

impl Configuration {
    /// The window bits always lie between 9 and 15.
    #[verifier::type_invariant]
    spec fn window_bits_in_range(self) -> bool {
        &&& 9 <= self.server_max_window_bits <= 15
        &&& 9 <= self.client_max_window_bits <= 15
    }

    /// The compression level.
    pub closed spec fn level(&self) -> Compression {
        self.compression_level
    }

    /// The default configuration: the default compression level, context
    /// takeover allowed both ways and the largest windows.
    pub fn new() -> (r: Self)
        ensures
            r@ == default_params(),
    {
        Self {
            compression_level: default_compression(),
            server_no_context_takeover: false,
            client_no_context_takeover: false,
            server_max_window_bits: DEFAULT_MAX_WINDOW_BITS,
            client_max_window_bits: DEFAULT_MAX_WINDOW_BITS,
        }
    }

    /// Sets the compression level.
    pub fn compression_level(self, compression_level: Compression) -> (r: Self)
        ensures
            r@ == self@,
            r.level() == compression_level,
    {
        proof {
            use_type_invariant(&self);
        }
        Self { compression_level, ..self }
    }

    /// Sets whether the server gives up its compression context between
    /// messages.
    pub fn server_no_context_takeover(self, server_no_context_takeover: bool) -> (r: Self)
        ensures
            r@ == (DeflateParams { server_no_context_takeover, ..self@ }),
            r.level() == self.level(),
    {
        proof {
            use_type_invariant(&self);
        }
        Self { server_no_context_takeover, ..self }
    }

    /// Sets whether the client gives up its compression context between
    /// messages.
    pub fn client_no_context_takeover(self, client_no_context_takeover: bool) -> (r: Self)
        ensures
            r@ == (DeflateParams { client_no_context_takeover, ..self@ }),
            r.level() == self.level(),
    {
        proof {
            use_type_invariant(&self);
        }
        Self { client_no_context_takeover, ..self }
    }

    /// Sets the base-2 logarithm of the server's LZ77 window, between 9 and
    /// 15.
    pub fn server_max_window_bits(self, server_max_window_bits: u8) -> (r: Self)
        requires
            9 <= server_max_window_bits <= 15,
        ensures
            r@ == (DeflateParams { server_max_window_bits, ..self@ }),
            r.level() == self.level(),
    {
        proof {
            use_type_invariant(&self);
        }
        Self { server_max_window_bits, ..self }
    }

    /// Sets the base-2 logarithm of the client's LZ77 window, between 9 and
    /// 15.
    pub fn client_max_window_bits(self, client_max_window_bits: u8) -> (r: Self)
        requires
            9 <= client_max_window_bits <= 15,
        ensures
            r@ == (DeflateParams { client_max_window_bits, ..self@ }),
            r.level() == self.level(),
    {
        proof {
            use_type_invariant(&self);
        }
        Self { client_max_window_bits, ..self }
    }

    /// Whether the server gives up its compression context between messages.
    pub fn server_no_context_takeover_enabled(&self) -> (r: bool)
        ensures
            r == self@.server_no_context_takeover,
    {
        self.server_no_context_takeover
    }

    /// Whether the client gives up its compression context between messages.
    pub fn client_no_context_takeover_enabled(&self) -> (r: bool)
        ensures
            r == self@.client_no_context_takeover,
    {
        self.client_no_context_takeover
    }

    /// The base-2 logarithm of the server's LZ77 window.
    pub fn server_window_bits(&self) -> (r: u8)
        ensures
            r == self@.server_max_window_bits,
    {
        self.server_max_window_bits
    }

    /// The base-2 logarithm of the client's LZ77 window.
    pub fn client_window_bits(&self) -> (r: u8)
        ensures
            r == self@.client_max_window_bits,
    {
        self.client_max_window_bits
    }

    /// The parameters used before any is negotiated, with this compression
    /// level.
    fn defaults_with_level(&self) -> (r: Self)
        ensures
            r@ == default_params(),
            r.level() == self.level(),
    {
        Self {
            compression_level: self.compression_level,
            server_no_context_takeover: false,
            client_no_context_takeover: false,
            server_max_window_bits: DEFAULT_MAX_WINDOW_BITS,
            client_max_window_bits: DEFAULT_MAX_WINDOW_BITS,
        }
    }

    /// Parses the extension parameters proposed by the client and writes the
    /// accepted ones to `accepted`.
    ///
    /// # Errors
    ///
    /// Fails on a parameter that cannot be parsed, is unknown, has a value
    /// where it takes none or none where it takes one, or holds invalid
    /// window bits.
    pub fn accept_client_proposal(&self, params: ParamsIterator<'_>, accepted: &mut Proposal) -> (r:
        Result<Self, Error>)
        requires
            params.wf(),
        ensures
            match accept_params(default_params(), params@.0, params@.1, old(accepted)@) {
                Ok((p, text)) => r matches Ok(c) && c@ == p && c.level() == self.level()
                    && final(accepted)@ == text,
                Err(e) => r matches Err(e2) && e2 == e,
            },
    {
        let mut parameters = self.defaults_with_level();
        let ghost total = accept_params(default_params(), params@.0, params@.1, accepted@);
        let ghost p0 = params@;
        let mut iter = params;
        loop
            invariant
                p0 == params@,
                total == accept_params(default_params(), p0.0, p0.1, old(accepted)@),
                iter.wf(),
                parameters.level() == self.level(),
                accept_params(parameters@, iter@.0, iter@.1, accepted@) == total,
            decreases iter@.0.len() + (if iter@.1 {
                0nat
            } else {
                1nat
            }),
        {
            proof {
                lemma_split_step_shrinks(iter@.0, iter@.1, ';');
                use_type_invariant(&parameters);
            }
            let (key, value) = match iter.next() {
                None => return Ok(parameters),
                Some(Err(e)) => return Err(Error::Parsing(e)),
                Some(Ok(param)) => param,
            };
            if str_eq(key, SERVER_NO_CONTEXT_TAKEOVER) {
                if value.is_some() {
                    return Err(Error::ParamDisallowsValue);
                }
                parameters.server_no_context_takeover = true;
                accepted.add_param(SERVER_NO_CONTEXT_TAKEOVER, None);
            } else if str_eq(key, CLIENT_NO_CONTEXT_TAKEOVER) {
                if value.is_some() {
                    return Err(Error::ParamDisallowsValue);
                }
                parameters.client_no_context_takeover = true;
                accepted.add_param(CLIENT_NO_CONTEXT_TAKEOVER, None);
            } else if str_eq(key, SERVER_MAX_WINDOW_BITS) {
                let bits = match value {
                    Some(bits) => bits,
                    None => return Err(Error::ParamRequiresValue),
                };
                match window_bits(bits) {
                    Some(b) => parameters.server_max_window_bits = b,
                    None => return Err(Error::InvalidServerMaxWindowBits),
                }
                accepted.add_param(SERVER_MAX_WINDOW_BITS, Some(bits));
            } else if str_eq(key, CLIENT_MAX_WINDOW_BITS) {
                let bits = match value {
                    Some(bits) => bits,
                    None => return Err(Error::ParamRequiresValue),
                };
                match window_bits(bits) {
                    Some(b) => parameters.client_max_window_bits = b,
                    None => return Err(Error::InvalidClientMaxWindowBits),
                }
                accepted.add_param(CLIENT_MAX_WINDOW_BITS, Some(bits));
            } else {
                return Err(Error::UnknownParameter);
            }
        }
    }

    /// Parses the extension parameters answered by the server.
    ///
    /// # Errors
    ///
    /// Fails on a parameter that cannot be parsed, is unknown, has a value
    /// where it takes none or none where it takes one, holds invalid window
    /// bits, or sets client window bits that the client did not propose.
    pub fn verify_server_proposal(&self, params: ParamsIterator<'_>) -> (r: Result<Self, Error>)
        requires
            params.wf(),
        ensures
            match verify_params(self@, default_params(), params@.0, params@.1) {
                Ok(p) => r matches Ok(c) && c@ == p && c.level() == self.level(),
                Err(e) => r matches Err(e2) && e2 == e,
            },
    {
        let mut parameters = self.defaults_with_level();
        let ghost total = verify_params(self@, default_params(), params@.0, params@.1);
        let ghost p0 = params@;
        let mut iter = params;
        loop
            invariant
                p0 == params@,
                total == verify_params(self@, default_params(), p0.0, p0.1),
                iter.wf(),
                parameters.level() == self.level(),
                verify_params(self@, parameters@, iter@.0, iter@.1) == total,
            decreases iter@.0.len() + (if iter@.1 {
                0nat
            } else {
                1nat
            }),
        {
            proof {
                lemma_split_step_shrinks(iter@.0, iter@.1, ';');
                use_type_invariant(&parameters);
            }
            let (key, value) = match iter.next() {
                None => return Ok(parameters),
                Some(Err(e)) => return Err(Error::Parsing(e)),
                Some(Ok(param)) => param,
            };
            if str_eq(key, SERVER_NO_CONTEXT_TAKEOVER) {
                if value.is_some() {
                    return Err(Error::ParamDisallowsValue);
                }
                parameters.server_no_context_takeover = true;
            } else if str_eq(key, CLIENT_NO_CONTEXT_TAKEOVER) {
                if value.is_some() {
                    return Err(Error::ParamDisallowsValue);
                }
                parameters.client_no_context_takeover = true;
            } else if str_eq(key, SERVER_MAX_WINDOW_BITS) {
                let bits = match value {
                    Some(bits) => bits,
                    None => return Err(Error::ParamRequiresValue),
                };
                match window_bits(bits) {
                    Some(b) => parameters.server_max_window_bits = b,
                    None => return Err(Error::InvalidServerMaxWindowBits),
                }
            } else if str_eq(key, CLIENT_MAX_WINDOW_BITS) {
                let bits = match value {
                    Some(bits) => bits,
                    None => return Err(Error::ParamRequiresValue),
                };
                let b = match window_bits(bits) {
                    Some(b) => b,
                    None => return Err(Error::InvalidClientMaxWindowBits),
                };
                if self.client_max_window_bits == DEFAULT_MAX_WINDOW_BITS {
                    // The client proposes these bits only when they differ
                    // from the default.
                    return Err(Error::DisallowedClientMaxWindowBits);
                }
                parameters.client_max_window_bits = b;
            } else {
                return Err(Error::UnknownParameter);
            }
        }
    }

    /// The name of the extension as negotiated in the
    /// `Sec-WebSocket-Extensions` header.
    pub fn name() -> (r: &'static str)
        ensures
            r@ == PER_MESSAGE_DEFLATE@,
    {
        PER_MESSAGE_DEFLATE
    }

    /// Adds the parameters to propose for this configuration to `proposal`.
    pub fn generate_client_proposal(&self, proposal: &mut Proposal)
        ensures
            final(proposal)@ == old(proposal)@ + client_proposal_text(self@),
    {
        proof {
            use_type_invariant(self);
        }
        if self.server_no_context_takeover {
            proposal.add_param(SERVER_NO_CONTEXT_TAKEOVER, None);
        }
        if self.client_no_context_takeover {
            proposal.add_param(CLIENT_NO_CONTEXT_TAKEOVER, None);
        }
        if self.server_max_window_bits != DEFAULT_MAX_WINDOW_BITS {
            proposal.add_param(SERVER_MAX_WINDOW_BITS, Some(window_bits_str(self.server_max_window_bits)));
        }
        if self.client_max_window_bits != DEFAULT_MAX_WINDOW_BITS {
            proposal.add_param(CLIENT_MAX_WINDOW_BITS, Some(window_bits_str(self.client_max_window_bits)));
        }
    }
}

/// The parameters a client proposes for a configuration, as the text they
/// add to a proposal: the context takeover flags that are set, then the
/// window bits that differ from the default.
pub open spec fn client_proposal_text(p: DeflateParams) -> Seq<char> {
    (if p.server_no_context_takeover {
        param_text(SERVER_NO_CONTEXT_TAKEOVER@, None)
    } else {
        Seq::empty()
    }) + (if p.client_no_context_takeover {
        param_text(CLIENT_NO_CONTEXT_TAKEOVER@, None)
    } else {
        Seq::empty()
    }) + (if p.server_max_window_bits != DEFAULT_MAX_WINDOW_BITS {
        param_text(SERVER_MAX_WINDOW_BITS@, Some(window_bits_text(p.server_max_window_bits)))
    } else {
        Seq::empty()
    }) + (if p.client_max_window_bits != DEFAULT_MAX_WINDOW_BITS {
        param_text(CLIENT_MAX_WINDOW_BITS@, Some(window_bits_text(p.client_max_window_bits)))
    } else {
        Seq::empty()
    })
}

/// The parameters a client proposes for a configuration, in the order
/// [`client_proposal_text`] writes them.
pub open spec fn client_proposal_params(p: DeflateParams) -> Seq<(Seq<char>, Option<Seq<char>>)> {
    (if p.server_no_context_takeover {
        seq![(SERVER_NO_CONTEXT_TAKEOVER@, None::<Seq<char>>)]
    } else {
        Seq::empty()
    }) + (if p.client_no_context_takeover {
        seq![(CLIENT_NO_CONTEXT_TAKEOVER@, None::<Seq<char>>)]
    } else {
        Seq::empty()
    }) + (if p.server_max_window_bits != DEFAULT_MAX_WINDOW_BITS {
        seq![(SERVER_MAX_WINDOW_BITS@, Some(window_bits_text(p.server_max_window_bits)))]
    } else {
        Seq::empty()
    }) + (if p.client_max_window_bits != DEFAULT_MAX_WINDOW_BITS {
        seq![(CLIENT_MAX_WINDOW_BITS@, Some(window_bits_text(p.client_max_window_bits)))]
    } else {
        Seq::empty()
    })
}

/// The text of parameters one after another is the text of each in turn.
proof fn lemma_params_text_append(
    a: Seq<(Seq<char>, Option<Seq<char>>)>,
    b: Seq<(Seq<char>, Option<Seq<char>>)>,
)
    ensures
        params_text(a + b) == params_text(a) + params_text(b),
    decreases a.len(),
{
    if a.len() == 0 {
        assert(a + b =~= b);
        assert(params_text(a) =~= Seq::<char>::empty());
        assert(params_text(a) + params_text(b) =~= params_text(b));
    } else {
        assert((a + b).drop_first() =~= a.drop_first() + b);
        lemma_params_text_append(a.drop_first(), b);
        assert(params_text(a + b) =~= params_text(a) + params_text(b));
    }
}

/// The text of an optional single parameter.
proof fn lemma_params_text_one(ps: Seq<(Seq<char>, Option<Seq<char>>)>)
    requires
        ps.len() <= 1,
    ensures
        params_text(ps) == if ps.len() == 1 {
            param_text(ps[0].0, ps[0].1)
        } else {
            Seq::empty()
        },
{
    if ps.len() == 1 {
        assert(ps.drop_first() =~= Seq::<(Seq<char>, Option<Seq<char>>)>::empty());
        assert(params_text(ps.drop_first()) =~= Seq::<char>::empty());
        assert(params_text(ps) =~= param_text(ps[0].0, ps[0].1));
    }
}

/// The names of the parameters and the window sizes are tokens.
proof fn lemma_proposal_tokens(b: u8)
    requires
        9 <= b <= 15,
    ensures
        is_token(SERVER_NO_CONTEXT_TAKEOVER@),
        is_token(CLIENT_NO_CONTEXT_TAKEOVER@),
        is_token(SERVER_MAX_WINDOW_BITS@),
        is_token(CLIENT_MAX_WINDOW_BITS@),
        is_token(PER_MESSAGE_DEFLATE@),
        is_token(window_bits_text(b)),
{
    reveal_strlit("server_no_context_takeover");
    reveal_strlit("client_no_context_takeover");
    reveal_strlit("server_max_window_bits");
    reveal_strlit("client_max_window_bits");
    reveal_strlit("permessage-deflate");
}

/// The header a client proposes for a configuration reads back as the
/// parameters it proposes: one extension, `permessage-deflate`, whose
/// parameter iterator yields exactly [`client_proposal_params`], in order.
pub proof fn lemma_client_header_round_trip(p: DeflateParams)
    requires
        9 <= p.server_max_window_bits <= 15,
        9 <= p.client_max_window_bits <= 15,
    ensures
        ({
            let h = PER_MESSAGE_DEFLATE@ + client_proposal_text(p);
            &&& split_step(h, false, ',') == Some((h, Seq::<char>::empty(), true))
            &&& extension_item(h) matches Ok((n, params)) && n == PER_MESSAGE_DEFLATE@
                && parsed_params(trim(params), false) == client_proposal_params(p).map_values(
                |q: (Seq<char>, Option<Seq<char>>)| Ok::<_, ParseError>(q),
            )
        }),
{
    let s0 = if p.server_no_context_takeover {
        seq![(SERVER_NO_CONTEXT_TAKEOVER@, None::<Seq<char>>)]
    } else {
        Seq::empty()
    };
    let s1 = if p.client_no_context_takeover {
        seq![(CLIENT_NO_CONTEXT_TAKEOVER@, None::<Seq<char>>)]
    } else {
        Seq::empty()
    };
    let s2 = if p.server_max_window_bits != DEFAULT_MAX_WINDOW_BITS {
        seq![(SERVER_MAX_WINDOW_BITS@, Some(window_bits_text(p.server_max_window_bits)))]
    } else {
        Seq::empty()
    };
    let s3 = if p.client_max_window_bits != DEFAULT_MAX_WINDOW_BITS {
        seq![(CLIENT_MAX_WINDOW_BITS@, Some(window_bits_text(p.client_max_window_bits)))]
    } else {
        Seq::empty()
    };
    let ps = client_proposal_params(p);
    assert(ps == s0 + s1 + s2 + s3);
    lemma_params_text_one(s0);
    lemma_params_text_one(s1);
    lemma_params_text_one(s2);
    lemma_params_text_one(s3);
    lemma_params_text_append(s0, s1);
    lemma_params_text_append(s0 + s1, s2);
    lemma_params_text_append(s0 + s1 + s2, s3);
    assert(params_text(ps) == client_proposal_text(p));
    lemma_proposal_tokens(p.server_max_window_bits);
    lemma_proposal_tokens(p.client_max_window_bits);
    assert forall|i: int| 0 <= i < ps.len() implies is_token_param(#[trigger] ps[i]) by {
        let a = s0 + s1;
        let c = a + s2;
        if i < c.len() {
            assert(ps[i] == c[i]);
            if i < a.len() {
                assert(c[i] == a[i]);
                if i < s0.len() {
                    assert(a[i] == s0[i]);
                } else {
                    assert(a[i] == s1[i - s0.len()]);
                }
            } else {
                assert(c[i] == s2[i - a.len()]);
            }
        } else {
            assert(ps[i] == s3[i - c.len()]);
        }
    }
    lemma_proposal_round_trip(PER_MESSAGE_DEFLATE@, ps);
}

/// The `permessage-deflate` extension as negotiated for one end of a
/// connection.
#[derive(Debug)]
pub struct Extension {
    /// The negotiated parameters.
    parameters: Configuration,
    /// The end of the connection this is for.
    role: Role,
}

impl View for Extension {
    type V = (DeflateParams, Role);

    closed spec fn view(&self) -> (DeflateParams, Role) {
        (self.parameters@, self.role)
    }
}

impl Extension {
    /// The compression level.
    pub closed spec fn level(&self) -> Compression {
        self.parameters.level()
    }

    /// The extension with the negotiated `parameters`, for the end `role`.
    pub fn new(parameters: Configuration, role: Role) -> (r: Self)
        ensures
            r@ == (parameters@, role),
            r.level() == parameters.level(),
    {
        Self { parameters, role }
    }

    /// The compression level.
    pub fn compression(&self) -> (r: Compression)
        ensures
            r == self.level(),
    {
        self.parameters.compression_level
    }

    /// Whether this end gives up its compression context between messages.
    pub fn no_local_context_takeover(&self) -> (r: bool)
        ensures
            r == match self@.1 {
                Role::Client => self@.0.client_no_context_takeover,
                Role::Server => self@.0.server_no_context_takeover,
            },
    {
        match self.role {
            Role::Client => self.parameters.client_no_context_takeover,
            Role::Server => self.parameters.server_no_context_takeover,
        }
    }

    /// Whether the other end gives up its compression context between
    /// messages.
    pub fn no_remote_context_takeover(&self) -> (r: bool)
        ensures
            r == match self@.1 {
                Role::Client => self@.0.server_no_context_takeover,
                Role::Server => self@.0.client_no_context_takeover,
            },
    {
        match self.role {
            Role::Client => self.parameters.server_no_context_takeover,
            Role::Server => self.parameters.client_no_context_takeover,
        }
    }

    /// The base-2 logarithm of the window this end compresses with.
    pub fn compress_window_bits(&self) -> (r: u8)
        ensures
            r == match self@.1 {
                Role::Client => self@.0.client_max_window_bits,
                Role::Server => self@.0.server_max_window_bits,
            },
    {
        match self.role {
            Role::Client => self.parameters.client_max_window_bits,
            Role::Server => self.parameters.server_max_window_bits,
        }
    }

    /// The base-2 logarithm of the window this end decompresses with.
    pub fn decompress_window_bits(&self) -> (r: u8)
        ensures
            r == match self@.1 {
                Role::Client => self@.0.server_max_window_bits,
                Role::Server => self@.0.client_max_window_bits,
            },
    {
        match self.role {
            Role::Client => self.parameters.server_max_window_bits,
            Role::Server => self.parameters.client_max_window_bits,
        }
    }
}


/// Checking the parameters `items` one after another, as a client does,
/// from the parameters `p`: the parameters afterwards, or the first error.
spec fn verify_items(
    proposed: DeflateParams,
    p: DeflateParams,
    items: Seq<(Seq<char>, Option<Seq<char>>)>,
) -> Result<DeflateParams, Error>
    decreases items.len(),
{
    if items.len() == 0 {
        Ok(p)
    } else {
        match verify_param(proposed, p, items[0].0, items[0].1) {
            Err(e) => Err(e),
            Ok(p2) => verify_items(proposed, p2, items.drop_first()),
        }
    }
}

/// Checking parameters that parse as `items` is checking `items` in turn.
proof fn lemma_verify_params_items(
    proposed: DeflateParams,
    p: DeflateParams,
    rest: Seq<char>,
    finished: bool,
    items: Seq<(Seq<char>, Option<Seq<char>>)>,
)
    requires
        parsed_params(rest, finished) == items.map_values(
            |q: (Seq<char>, Option<Seq<char>>)| Ok::<_, ParseError>(q),
        ),
    ensures
        verify_params(proposed, p, rest, finished) == verify_items(proposed, p, items),
    decreases rest.len() + (if finished {
        0nat
    } else {
        1nat
    }),
{
    let mapped = items.map_values(|q: (Seq<char>, Option<Seq<char>>)| Ok::<_, ParseError>(q));
    match split_step(rest, finished, ';') {
        None => {
            assert(items.len() == 0);
        },
        Some((piece, after, fin)) => match param_item(piece) {
            None => {
                assert(parsed_params(rest, finished) == Seq::<
                    Result<(Seq<char>, Option<Seq<char>>), ParseError>,
                >::empty());
                assert(mapped.len() == items.len());
            },
            Some(item) => {
                assert(mapped.len() > 0);
                assert(mapped[0] == item);
                assert(item == Ok::<_, ParseError>(items[0]));
                assert(parsed_params(after, fin) =~= items.drop_first().map_values(
                    |q: (Seq<char>, Option<Seq<char>>)| Ok::<_, ParseError>(q),
                )) by {
                    assert(parsed_params(rest, finished) == seq![item] + parsed_params(after, fin));
                    assert(parsed_params(after, fin) =~= parsed_params(rest, finished).drop_first());
                }
                lemma_split_step_shrinks(rest, finished, ';');
                match verify_param(proposed, p, items[0].0, items[0].1) {
                    Err(e) => {},
                    Ok(p2) => {
                        lemma_verify_params_items(proposed, p2, after, fin, items.drop_first());
                    },
                }
            },
        },
    }
}

/// An allowed window size is a token.
proof fn lemma_window_bits_token(s: Seq<char>)
    requires
        window_bits_value(s) is Some,
    ensures
        is_token(s),
{
}

/// What a server accepts it writes into its answer as token parameters,
/// and a client that proposed client window bits reads them back as the
/// same parameters the server negotiated.
proof fn lemma_accepted_items(
    proposed: DeflateParams,
    p: DeflateParams,
    rest: Seq<char>,
    finished: bool,
    text: Seq<char>,
) -> (ps: Seq<(Seq<char>, Option<Seq<char>>)>)
    requires
        proposed.client_max_window_bits != DEFAULT_MAX_WINDOW_BITS,
        accept_params(p, rest, finished, text) is Ok,
    ensures
        accept_params(p, rest, finished, text)->Ok_0.1 == text + params_text(ps),
        forall|i: int| 0 <= i < ps.len() ==> is_token_param(#[trigger] ps[i]),
        verify_items(proposed, p, ps) == Ok::<_, Error>(accept_params(p, rest, finished, text)->Ok_0.0),
    decreases rest.len() + (if finished {
        0nat
    } else {
        1nat
    }),
{
    let empty: Seq<(Seq<char>, Option<Seq<char>>)> = Seq::empty();
    match split_step(rest, finished, ';') {
        None => {
            assert(text + params_text(empty) =~= text);
            empty
        },
        Some((piece, after, fin)) => match param_item(piece) {
            None => {
                assert(text + params_text(empty) =~= text);
                empty
            },
            Some(Err(e)) => empty,
            Some(Ok((key, value))) => {
                let p2 = accept_param(p, key, value)->Ok_0;
                lemma_split_step_shrinks(rest, finished, ';');
                let ps2 = lemma_accepted_items(proposed, p2, after, fin, text + param_text(key, value));
                let ps = seq![(key, value)] + ps2;
                assert(ps.drop_first() =~= ps2);
                assert(ps[0] == (key, value));
                assert(params_text(ps) == param_text(key, value) + params_text(ps2));
                assert(text + param_text(key, value) + params_text(ps2) =~= text + params_text(ps));
                lemma_proposal_tokens(9);
                match value {
                    Some(bits) => {
                        if key == SERVER_MAX_WINDOW_BITS@ || key == CLIENT_MAX_WINDOW_BITS@ {
                            lemma_window_bits_token(bits);
                        }
                    },
                    None => {},
                }
                assert(is_token_param((key, value)));
                assert forall|i: int| 0 <= i < ps.len() implies is_token_param(#[trigger] ps[i]) by {
                    if i > 0 {
                        assert(ps[i] == ps2[i - 1]);
                    }
                }
                assert(verify_param(proposed, p, key, value) == Ok::<_, Error>(p2));
                ps
            },
        },
    }
}

/// The parameters a server negotiates are the ones its answer tells the
/// client: whenever the server accepts the client's parameters `rest`, its
/// answer is a header of the single extension `permessage-deflate`, and a
/// client that proposed window bits for itself reads back from it exactly
/// the parameters the server took on.
pub proof fn lemma_accepted_answer_reads_back(proposed: DeflateParams, rest: Seq<char>, finished: bool)
    requires
        proposed.client_max_window_bits != DEFAULT_MAX_WINDOW_BITS,
        accept_params(default_params(), rest, finished, PER_MESSAGE_DEFLATE@) is Ok,
    ensures
        ({
            let (p, answer) = accept_params(default_params(), rest, finished, PER_MESSAGE_DEFLATE@)->Ok_0;
            &&& split_step(answer, false, ',') == Some((answer, Seq::<char>::empty(), true))
            &&& extension_item(answer) matches Ok((n, params)) && n == PER_MESSAGE_DEFLATE@
                && verify_params(proposed, default_params(), trim(params), false) == Ok::<_, Error>(p)
        }),
{
    let ps = lemma_accepted_items(proposed, default_params(), rest, finished, PER_MESSAGE_DEFLATE@);
    lemma_proposal_tokens(9);
    lemma_proposal_round_trip(PER_MESSAGE_DEFLATE@, ps);
    let answer = PER_MESSAGE_DEFLATE@ + params_text(ps);
    let params = extension_item(answer)->Ok_0.1;
    lemma_verify_params_items(proposed, default_params(), trim(params), false, ps);
}


/// A parameter item as the header parser yields it.
pub type ParamResult = Result<(Seq<char>, Option<Seq<char>>), ParseError>;

/// Whether `items` hold the window bits parameter `key` with some value.
pub open spec fn has_bits_param(items: Seq<ParamResult>, key: Seq<char>) -> bool {
    exists|v: Seq<char>| items.contains(Ok((key, Some(v))))
}

/// Whether `items` hold the window bits parameter `key` with a value that
/// states `b`.
pub open spec fn has_bits_value(items: Seq<ParamResult>, key: Seq<char>, b: u8) -> bool {
    exists|v: Seq<char>| items.contains(Ok((key, Some(v)))) && window_bits_value(v) == Some(b)
}

/// The names of the parameters differ from one another.
proof fn lemma_param_names_distinct()
    ensures
        SERVER_NO_CONTEXT_TAKEOVER@ != CLIENT_NO_CONTEXT_TAKEOVER@,
        SERVER_NO_CONTEXT_TAKEOVER@ != SERVER_MAX_WINDOW_BITS@,
        SERVER_NO_CONTEXT_TAKEOVER@ != CLIENT_MAX_WINDOW_BITS@,
        CLIENT_NO_CONTEXT_TAKEOVER@ != SERVER_MAX_WINDOW_BITS@,
        CLIENT_NO_CONTEXT_TAKEOVER@ != CLIENT_MAX_WINDOW_BITS@,
        SERVER_MAX_WINDOW_BITS@ != CLIENT_MAX_WINDOW_BITS@,
{
    reveal_strlit("server_no_context_takeover");
    reveal_strlit("client_no_context_takeover");
    reveal_strlit("server_max_window_bits");
    reveal_strlit("client_max_window_bits");
    assert(SERVER_NO_CONTEXT_TAKEOVER@[0] != CLIENT_NO_CONTEXT_TAKEOVER@[0]);
    assert(SERVER_MAX_WINDOW_BITS@[0] != CLIENT_MAX_WINDOW_BITS@[0]);
    assert(SERVER_NO_CONTEXT_TAKEOVER@.len() != SERVER_MAX_WINDOW_BITS@.len());
    assert(SERVER_NO_CONTEXT_TAKEOVER@.len() != CLIENT_MAX_WINDOW_BITS@.len());
    assert(CLIENT_NO_CONTEXT_TAKEOVER@.len() != SERVER_MAX_WINDOW_BITS@.len());
    assert(CLIENT_NO_CONTEXT_TAKEOVER@.len() != CLIENT_MAX_WINDOW_BITS@.len());
}

/// Membership in a sequence with one more item in front.
proof fn lemma_contains_front(head: ParamResult, tail: Seq<ParamResult>)
    ensures
        forall|x: ParamResult| #[trigger] (seq![head] + tail).contains(x) <==> (x == head || tail.contains(x)),
        forall|key: Seq<char>| #[trigger] has_bits_param(seq![head] + tail, key) <==> (has_bits_param(tail, key) || (head matches Ok((k, Some(_))) && k == key)),
        forall|key: Seq<char>, b: u8| has_bits_value(tail, key, b) ==> #[trigger] has_bits_value(seq![head] + tail, key, b),
{
    let items = seq![head] + tail;
    assert forall|x: ParamResult| #[trigger] items.contains(x) <==> (x == head || tail.contains(x)) by {
        if items.contains(x) {
            let i = choose|i: int| 0 <= i < items.len() && items[i] == x;
            if i > 0 {
                assert(tail[i - 1] == x);
            }
        }
        if x == head {
            assert(items[0] == x);
        }
        if tail.contains(x) {
            let i = choose|i: int| 0 <= i < tail.len() && tail[i] == x;
            assert(items[i + 1] == x);
        }
    }
    assert forall|key: Seq<char>| #[trigger] has_bits_param(items, key) <==> (has_bits_param(tail, key) || (head matches Ok((k, Some(_))) && k == key)) by {
        if has_bits_param(items, key) {
            let v = choose|v: Seq<char>| items.contains(Ok((key, Some(v))));
            assert(items.contains(Ok((key, Some(v)))));
        }
        if has_bits_param(tail, key) {
            let v = choose|v: Seq<char>| tail.contains(Ok((key, Some(v))));
            assert(items.contains(Ok((key, Some(v)))));
        }
        match head {
            Ok((k, Some(v))) => {
                if k == key {
                    assert(items.contains(Ok((key, Some(v)))));
                }
            },
            _ => {},
        }
    }
    assert forall|key: Seq<char>, b: u8| has_bits_value(tail, key, b) implies #[trigger] has_bits_value(items, key, b) by {
        let v = choose|v: Seq<char>| tail.contains(Ok((key, Some(v)))) && window_bits_value(v) == Some(b);
        assert(items.contains(Ok((key, Some(v)))));
    }
}

/// The first parameter item of `rest`, when accepting it succeeds: the
/// items of `rest` are it followed by those of what follows it.
proof fn lemma_parsed_front(rest: Seq<char>, finished: bool, piece: Seq<char>, after: Seq<char>, fin: bool, item: ParamResult)
    requires
        split_step(rest, finished, ';') == Some((piece, after, fin)),
        param_item(piece) == Some(item),
    ensures
        parsed_params(rest, finished) == seq![item] + parsed_params(after, fin),
{
}

/// What a server negotiates is what the client asked for: a context
/// takeover flag is set exactly when it was set before or the client's
/// parameters name it.
pub proof fn lemma_accept_sets_flags(p0: DeflateParams, rest: Seq<char>, finished: bool, text: Seq<char>)
    requires
        accept_params(p0, rest, finished, text) is Ok,
    ensures
        ({
            let p = accept_params(p0, rest, finished, text)->Ok_0.0;
            let items = parsed_params(rest, finished);
            &&& p.server_no_context_takeover == (p0.server_no_context_takeover || items.contains(
                Ok((SERVER_NO_CONTEXT_TAKEOVER@, None)),
            ))
            &&& p.client_no_context_takeover == (p0.client_no_context_takeover || items.contains(
                Ok((CLIENT_NO_CONTEXT_TAKEOVER@, None)),
            ))
        }),
    decreases rest.len() + (if finished {
        0nat
    } else {
        1nat
    }),
{
    let items = parsed_params(rest, finished);
    match split_step(rest, finished, ';') {
        None => {
            assert(items.len() == 0);
        },
        Some((piece, after, fin)) => match param_item(piece) {
            None => {
                assert(items.len() == 0);
            },
            Some(Err(e)) => {},
            Some(Ok((key, value))) => {
                let p2 = accept_param(p0, key, value)->Ok_0;
                lemma_split_step_shrinks(rest, finished, ';');
                lemma_accept_sets_flags(p2, after, fin, text + param_text(key, value));
                lemma_param_names_distinct();
                let head: ParamResult = Ok((key, value));
                lemma_parsed_front(rest, finished, piece, after, fin, head);
                lemma_contains_front(head, parsed_params(after, fin));
            },
        },
    }
}

/// What a server negotiates is what the client asked for: the window bits
/// stay as they were unless the client's parameters name them, and then
/// they are the value of one of those parameters.
pub proof fn lemma_accept_sets_window_bits(p0: DeflateParams, rest: Seq<char>, finished: bool, text: Seq<char>)
    requires
        accept_params(p0, rest, finished, text) is Ok,
    ensures
        ({
            let p = accept_params(p0, rest, finished, text)->Ok_0.0;
            let items = parsed_params(rest, finished);
            &&& !has_bits_param(items, SERVER_MAX_WINDOW_BITS@) ==> p.server_max_window_bits
                == p0.server_max_window_bits
            &&& has_bits_param(items, SERVER_MAX_WINDOW_BITS@) ==> has_bits_value(
                items,
                SERVER_MAX_WINDOW_BITS@,
                p.server_max_window_bits,
            )
            &&& !has_bits_param(items, CLIENT_MAX_WINDOW_BITS@) ==> p.client_max_window_bits
                == p0.client_max_window_bits
            &&& has_bits_param(items, CLIENT_MAX_WINDOW_BITS@) ==> has_bits_value(
                items,
                CLIENT_MAX_WINDOW_BITS@,
                p.client_max_window_bits,
            )
        }),
    decreases rest.len() + (if finished {
        0nat
    } else {
        1nat
    }),
{
    let items = parsed_params(rest, finished);
    lemma_proposal_tokens(9);
    match split_step(rest, finished, ';') {
        None => {
            assert(items.len() == 0);
        },
        Some((piece, after, fin)) => match param_item(piece) {
            None => {
                assert(items.len() == 0);
            },
            Some(Err(e)) => {},
            Some(Ok((key, value))) => {
                let p2 = accept_param(p0, key, value)->Ok_0;
                lemma_split_step_shrinks(rest, finished, ';');
                lemma_accept_sets_window_bits(p2, after, fin, text + param_text(key, value));
                lemma_param_names_distinct();
                let head: ParamResult = Ok((key, value));
                lemma_parsed_front(rest, finished, piece, after, fin, head);
                lemma_contains_front(head, parsed_params(after, fin));
                let tail = parsed_params(after, fin);
                assert(has_bits_param(items, SERVER_MAX_WINDOW_BITS@) == (has_bits_param(tail, SERVER_MAX_WINDOW_BITS@) || (head matches Ok((k, Some(_))) && k == SERVER_MAX_WINDOW_BITS@)));
                assert(has_bits_param(items, CLIENT_MAX_WINDOW_BITS@) == (has_bits_param(tail, CLIENT_MAX_WINDOW_BITS@) || (head matches Ok((k, Some(_))) && k == CLIENT_MAX_WINDOW_BITS@)));
                match value {
                    Some(v) => {
                        assert(items.contains(head));
                        if key == SERVER_MAX_WINDOW_BITS@ {
                            assert(window_bits_value(v) == Some(p2.server_max_window_bits));
                            assert(has_bits_value(items, key, p2.server_max_window_bits));
                        }
                        if key == CLIENT_MAX_WINDOW_BITS@ {
                            assert(window_bits_value(v) == Some(p2.client_max_window_bits));
                            assert(has_bits_value(items, key, p2.client_max_window_bits));
                        }
                    },
                    None => {},
                }
            },
        },
    }
}

} // verus!
