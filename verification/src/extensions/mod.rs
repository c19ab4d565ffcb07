//! The `Sec-WebSocket-Extensions` header: its grammar, and the negotiation
//! of the extensions it proposes.
use vstd::prelude::*;

pub mod parser;
pub mod permessage_deflate;

use self::parser::Error as ParseError;
use self::parser::{extension_item, lemma_split_step_shrinks, split_step, trim, ExtensionIterator, Proposal};
use self::permessage_deflate::{
    accept_params, default_params, verify_params, Configuration, DeflateParams, Extension,
    PER_MESSAGE_DEFLATE,
};
use crate::proto::Role;
use vstd::string::StringExecFns;

verus! {

/// A compression failure of the `flate2` crate, carried through opaquely.
#[verifier::external_type_specification]
#[verifier::external_body]
pub struct ExCompressError(flate2::CompressError);

/// A decompression failure of the `flate2` crate, carried through opaquely.
#[verifier::external_type_specification]
#[verifier::external_body]
pub struct ExDecompressError(flate2::DecompressError);

/// Errors of the extension negotiation.
#[derive(Debug)]
#[non_exhaustive]
pub enum Error {
    /// The header could not be parsed.
    Parsing(ParseError),
    /// A parameter is not known to the extension.
    UnknownParameter,
    /// A parameter that takes no value got one.
    ParamDisallowsValue,
    /// A parameter that takes a value got none.
    ParamRequiresValue,
    /// The server used an extension that was never proposed.
    ExtensionNeverProposed,
    /// The server answered an extension twice.
    DuplicateExtension,
    /// Compression failed.
    Compress(flate2::CompressError),
    /// Decompression failed.
    Decompress(flate2::DecompressError),
    /// The server max window bits are invalid.
    InvalidServerMaxWindowBits,
    /// The client max window bits are invalid.
    InvalidClientMaxWindowBits,
    /// The server used client max window bits that the client did not
    /// propose.
    DisallowedClientMaxWindowBits,
}

/// The extensions negotiated for a connection; by default, none.
#[derive(Debug)]
pub struct Extensions {
    /// The `permessage-deflate` extension, if it was negotiated.
    pub permessage_deflate: Option<Extension>,
}

/// The negotiated parameters of an optional extension and its end.
pub open spec fn extension_view(e: Option<Extension>) -> Option<(DeflateParams, Role)> {
    match e {
        Some(e) => Some(e@),
        None => None,
    }
}

/// The extensions a connection may use; by default, none.
#[derive(Clone, Copy, Debug)]
pub struct ExtensionConfiguration {
    /// The configuration of the `permessage-deflate` extension, if enabled.
    permessage_deflate: Option<Configuration>,
}

impl Default for ExtensionConfiguration {
    fn default() -> (r: Self)
        ensures
            r@ is None,
    {
        Self { permessage_deflate: None }
    }
}

impl View for ExtensionConfiguration {
    type V = Option<DeflateParams>;

    /// The parameters of the `permessage-deflate` extension, if enabled.
    closed spec fn view(&self) -> Option<DeflateParams> {
        match self.permessage_deflate {
            Some(c) => Some(c@),
            None => None,
        }
    }
}

/// `parts` joined with `sep` between them.
pub open spec fn join(parts: Seq<Seq<char>>, sep: Seq<char>) -> Seq<char>
    decreases parts.len(),
{
    if parts.len() == 0 {
        Seq::empty()
    } else if parts.len() == 1 {
        parts[0]
    } else {
        join(parts.drop_last(), sep) + sep + parts.last()
    }
}

/// Accepting the extensions the client proposes in `rest` (split at `,`,
/// the last one split off if `finished`), given the enabled
/// `permessage-deflate` parameters `deflate`: the answers agreed so far and
/// the parameters negotiated, or the error.
pub open spec fn accept_extensions(
    deflate: Option<DeflateParams>,
    rest: Seq<char>,
    finished: bool,
    agreed: Seq<Seq<char>>,
    negotiated: Option<DeflateParams>,
) -> Result<(Seq<Seq<char>>, Option<DeflateParams>), Error>
    decreases rest.len() + (if finished {
        0nat
    } else {
        1nat
    }),
{
    match split_step(rest, finished, ',') {
        None => Ok((agreed, negotiated)),
        Some((piece, after, fin)) => match extension_item(piece) {
            Err(e) => Err(Error::Parsing(e)),
            Ok((name, params)) => if deflate is Some && name == PER_MESSAGE_DEFLATE@ && negotiated is None {
                match accept_params(default_params(), trim(params), false, PER_MESSAGE_DEFLATE@) {
                    Err(e) => Err(e),
                    Ok((p, text)) => accept_extensions(deflate, after, fin, agreed.push(text), Some(p)),
                }
            } else {
                accept_extensions(deflate, after, fin, agreed, negotiated)
            },
        },
    }
}

/// Checking the extensions the server answered in `rest` (split at `,`, the
/// last one split off if `finished`), given the proposed `permessage-deflate`
/// parameters `deflate`: the parameters negotiated, or the error.
pub open spec fn verify_extensions(
    deflate: Option<DeflateParams>,
    rest: Seq<char>,
    finished: bool,
    negotiated: Option<DeflateParams>,
) -> Result<Option<DeflateParams>, Error>
    decreases rest.len() + (if finished {
        0nat
    } else {
        1nat
    }),
{
    match split_step(rest, finished, ',') {
        None => Ok(negotiated),
        Some((piece, after, fin)) => match extension_item(piece) {
            Err(e) => Err(Error::Parsing(e)),
            Ok((name, params)) => match deflate {
                Some(d) => if name != PER_MESSAGE_DEFLATE@ {
                    Err(Error::ExtensionNeverProposed)
                } else if negotiated is Some {
                    Err(Error::DuplicateExtension)
                } else {
                    match verify_params(d, default_params(), trim(params), false) {
                        Err(e) => Err(e),
                        Ok(p) => verify_extensions(deflate, after, fin, Some(p)),
                    }
                },
                None => Err(Error::ExtensionNeverProposed),
            },
        },
    }
}

/// The `permessage-deflate` parameters an optional negotiated extension
/// holds.
pub open spec fn negotiated_params(e: Option<Extension>) -> Option<DeflateParams> {
    match e {
        Some(e) => Some(e@.0),
        None => None,
    }
}

impl ExtensionConfiguration {
    /// Enables the `permessage-deflate` extension with `permessage_deflate`.
    pub fn permessage_deflate(self, permessage_deflate: Configuration) -> (r: Self)
        ensures
            r@ == Some(permessage_deflate@),
            r.deflate_level() == Some(permessage_deflate.level()),
    {
        Self { permessage_deflate: Some(permessage_deflate) }
    }

    /// The compression level of the `permessage-deflate` extension, if
    /// enabled.
    pub closed spec fn deflate_level(&self) -> Option<flate2::Compression> {
        match self.permessage_deflate {
            Some(c) => Some(c.level()),
            None => None,
        }
    }

    /// Generate the client `Sec-WebSocket-Extensions` header value, depending
    /// on the configuration. If no extensions are enabled, `None` is
    /// returned.
    pub fn generate_extension_header(&self) -> (r: Option<String>)
        ensures
            match self@ {
                Some(p) => r matches Some(s) && s@ == PER_MESSAGE_DEFLATE@
                    + permessage_deflate::client_proposal_text(p),
                None => r is None,
            },
    {
        match &self.permessage_deflate {
            Some(permessage_deflate) => {
                let mut proposal = Proposal::new(Configuration::name());
                permessage_deflate.generate_client_proposal(&mut proposal);
                Some(proposal.finish())
            },
            None => None,
        }
    }

    /// Generate the value of the `Sec-WebSocket-Extensions` header answering
    /// the client's proposals, and the extensions agreed.
    ///
    /// # Errors
    ///
    /// Fails when the header cannot be parsed or the parameters proposed for
    /// an enabled extension are invalid.
    pub fn accept_client_proposals(&self, client_extensions: ExtensionIterator<'_>) -> (r: Result<
        (Option<String>, Extensions),
        Error,
    >)
        requires
            client_extensions.wf(),
        ensures
            match accept_extensions(self@, client_extensions@.0, client_extensions@.1, Seq::empty(), None) {
                Err(e) => r matches Err(e2) && e2 == e,
                Ok((agreed, negotiated)) => r matches Ok((header, extensions)) && (match header {
                    Some(h) => agreed.len() > 0 && h@ == join(agreed, seq![',', ' ']),
                    None => agreed.len() == 0,
                }) && negotiated_params(extensions.permessage_deflate) == negotiated && (
                extensions.permessage_deflate matches Some(e) ==> e@.1 == Role::Server),
            },
    {
        let mut agreed: Vec<String> = Vec::new();
        let mut negotiated: Option<Extension> = None;
        let ghost total = accept_extensions(self@, client_extensions@.0, client_extensions@.1, Seq::empty(), None);
        let ghost it0 = client_extensions@;
        assert(agreed@.map_values(|s: String| s@) =~= Seq::<Seq<char>>::empty());
        let mut iter = client_extensions;
        loop
            invariant
                it0 == client_extensions@,
                total == accept_extensions(self@, it0.0, it0.1, Seq::empty(), None),
                iter.wf(),
                accept_extensions(
                    self@,
                    iter@.0,
                    iter@.1,
                    agreed@.map_values(|s: String| s@),
                    negotiated_params(negotiated),
                ) == total,
                negotiated matches Some(e) ==> e@.1 == Role::Server,
            decreases iter@.0.len() + (if iter@.1 {
                0nat
            } else {
                1nat
            }),
        {
            proof {
                lemma_split_step_shrinks(iter@.0, iter@.1, ',');
            }
            let extension = match iter.next() {
                None => {
                    let header = join_strings(&agreed);
                    return Ok((header, Extensions { permessage_deflate: negotiated }));
                },
                Some(Err(e)) => return Err(Error::Parsing(e)),
                Some(Ok(extension)) => extension,
            };
            if let Some(permessage_deflate) = &self.permessage_deflate {
                if crate::utf8::str_eq(extension.name, Configuration::name()) && negotiated.is_none() {
                    let mut accepted = Proposal::new(Configuration::name());
                    let parameters = match permessage_deflate.accept_client_proposal(
                        extension.params,
                        &mut accepted,
                    ) {
                        Ok(parameters) => parameters,
                        Err(e) => return Err(e),
                    };
                    negotiated = Some(Extension::new(parameters, Role::Server));
                    let text = accepted.finish();
                    let ghost before = agreed@;
                    agreed.push(text);
                    proof {
                        assert(agreed@.map_values(|s: String| s@) =~= before.map_values(|s: String| s@).push(text@));
                    }
                }
            }
        }
    }

    /// Checks the value of the `Sec-WebSocket-Extensions` header the server
    /// answered, and returns the extensions agreed.
    ///
    /// # Errors
    ///
    /// Fails when the header cannot be parsed, names an extension twice or
    /// one that was never proposed, or answers invalid parameters.
    pub fn verify_server_proposals(&self, server_extensions: ExtensionIterator<'_>) -> (r: Result<
        Extensions,
        Error,
    >)
        requires
            server_extensions.wf(),
        ensures
            match verify_extensions(self@, server_extensions@.0, server_extensions@.1, None) {
                Err(e) => r matches Err(e2) && e2 == e,
                Ok(negotiated) => r matches Ok(extensions) && negotiated_params(
                    extensions.permessage_deflate,
                ) == negotiated && (extensions.permessage_deflate matches Some(e) ==> e@.1
                    == Role::Client),
            },
    {
        let mut negotiated: Option<Extension> = None;
        let ghost total = verify_extensions(self@, server_extensions@.0, server_extensions@.1, None);
        let ghost it0 = server_extensions@;
        let mut iter = server_extensions;
        loop
            invariant
                it0 == server_extensions@,
                total == verify_extensions(self@, it0.0, it0.1, None),
                iter.wf(),
                verify_extensions(self@, iter@.0, iter@.1, negotiated_params(negotiated)) == total,
                negotiated matches Some(e) ==> e@.1 == Role::Client,
            decreases iter@.0.len() + (if iter@.1 {
                0nat
            } else {
                1nat
            }),
        {
            proof {
                lemma_split_step_shrinks(iter@.0, iter@.1, ',');
            }
            let extension = match iter.next() {
                None => return Ok(Extensions { permessage_deflate: negotiated }),
                Some(Err(e)) => return Err(Error::Parsing(e)),
                Some(Ok(extension)) => extension,
            };
            let permessage_deflate = match &self.permessage_deflate {
                Some(permessage_deflate) => permessage_deflate,
                // Nothing was proposed, so the server may answer nothing.
                None => return Err(Error::ExtensionNeverProposed),
            };
            if !crate::utf8::str_eq(extension.name, Configuration::name()) {
                return Err(Error::ExtensionNeverProposed);
            }
            if negotiated.is_some() {
                return Err(Error::DuplicateExtension);
            }
            let parameters = match permessage_deflate.verify_server_proposal(extension.params) {
                Ok(parameters) => parameters,
                Err(e) => return Err(e),
            };
            negotiated = Some(Extension::new(parameters, Role::Client));
        }
    }

    /// The extensions as configured, for the end `role`, without
    /// negotiation.
    pub fn into_extensions(self, role: Role) -> (r: Extensions)
        ensures
            extension_view(r.permessage_deflate) == match self@ {
                Some(p) => Some((p, role)),
                None => None,
            },
    {
        Extensions {
            permessage_deflate: match self.permessage_deflate {
                Some(deflate) => Some(Extension::new(deflate, role)),
                None => None,
            },
        }
    }
}

/// The strings joined with `", "`, or `None` if there are none.
fn join_strings(parts: &Vec<String>) -> (r: Option<String>)
    ensures
        match r {
            Some(h) => parts@.len() > 0 && h@ == join(parts@.map_values(|s: String| s@), seq![',', ' ']),
            None => parts@.len() == 0,
        },
{
    if parts.len() == 0 {
        return None;
    }
    let ghost ps = parts@.map_values(|s: String| s@);
    let mut out = parts[0].clone();
    let mut i: usize = 1;
    proof {
        reveal_strlit(", ");
        assert(ps.take(1).len() == 1);
    }
    while i < parts.len()
        invariant
            1 <= i <= parts@.len(),
            ps == parts@.map_values(|s: String| s@),
            out@ == join(ps.take(i as int), seq![',', ' ']),
            ", "@ == seq![',', ' '],
        decreases parts@.len() - i,
    {
        out.append(", ");
        out.append(parts[i].as_str());
        proof {
            assert(ps.take(i + 1).drop_last() =~= ps.take(i as int));
            assert(ps.take(i + 1).last() == ps[i as int]);
        }
        i = i + 1;
    }
    proof {
        assert(ps.take(parts@.len() as int) =~= ps);
    }
    Some(out)
}

} // verus!
