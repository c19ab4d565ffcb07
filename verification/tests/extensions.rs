use tokio_websockets::extensions::parser::ExtensionIterator;

#[test]
fn test_parse_header() {
    let inputs = &[
        "permessage-deflate; client_max_window_bits=15, x-webkit-deflate-frame",
        "deflate-stream",
        "mux; max-channels=4; flow-control, deflate-stream",
        "private-extension",
        "superspeed, colormode; depth=16",
        "superspeed; a",
        "superspeed;,priv",
        "superspeed;",
    ];

    for input in inputs {
        let mut extensions = ExtensionIterator::new(input);
        while let Some(extension) = extensions.next() {
            let mut ext = extension.unwrap();
            while let Some(param) = ext.params.next() {
                assert!(param.is_ok());
            }
        }
    }
}

use tokio_websockets::extensions::parser::{Error as ParseError, ParamsIterator, Proposal};
use tokio_websockets::extensions::permessage_deflate::{is_allowed_window_bits, Configuration};
use tokio_websockets::extensions::{Error, ExtensionConfiguration};
use tokio_websockets::proto::Role;

fn deflate(config: Configuration) -> ExtensionConfiguration {
    ExtensionConfiguration::default().permessage_deflate(config)
}

#[test]
fn extension_names_and_params() {
    let mut extensions = ExtensionIterator::new("mux; max-channels=4; flow-control, deflate-stream");
    let mut mux = extensions.next().unwrap().unwrap();
    assert_eq!(mux.name, "mux");
    assert_eq!(mux.params.next().unwrap().unwrap(), ("max-channels", Some("4")));
    assert_eq!(mux.params.next().unwrap().unwrap(), ("flow-control", None));
    assert!(mux.params.next().is_none());
    let deflate_stream = extensions.next().unwrap().unwrap();
    assert_eq!(deflate_stream.name, "deflate-stream");
    assert!(extensions.next().is_none());
}

#[test]
fn empty_extension_name() {
    let mut extensions = ExtensionIterator::new(" ; a=1");
    assert!(matches!(extensions.next(), Some(Err(ParseError::ExpectedExtensionName))));
}

#[test]
fn param_errors() {
    let mut params = ParamsIterator::new("=1; a=; b");
    assert!(matches!(params.next(), Some(Err(ParseError::ExpectedParamName))));
    assert!(matches!(params.next(), Some(Err(ParseError::ExpectedParamValue))));
    assert_eq!(params.next().unwrap().unwrap(), ("b", None));
    assert!(params.next().is_none());
}

#[test]
fn params_stop_at_empty_param() {
    let mut params = ParamsIterator::new("a;;b");
    assert_eq!(params.next().unwrap().unwrap(), ("a", None));
    assert!(params.next().is_none());
}

#[test]
fn proposal_text() {
    let mut proposal = Proposal::new("x");
    proposal.add_param("a", None);
    proposal.add_param("b", Some("1"));
    assert_eq!(proposal.finish(), "x; a; b=1");
    assert_eq!(Proposal::new("y").finish(), "y");
}

#[test]
fn window_bits() {
    assert!(is_allowed_window_bits("9"));
    assert!(is_allowed_window_bits("15"));
    assert!(!is_allowed_window_bits("08"));
    assert!(!is_allowed_window_bits("16"));
    assert!(!is_allowed_window_bits(""));
}

#[test]
fn client_header() {
    let config = deflate(Configuration::new().server_no_context_takeover(true));
    assert_eq!(
        config.generate_extension_header().as_deref(),
        Some("permessage-deflate; server_no_context_takeover")
    );
    let bits = deflate(Configuration::new().client_max_window_bits(12));
    assert_eq!(
        bits.generate_extension_header().as_deref(),
        Some("permessage-deflate; client_max_window_bits=12")
    );
    assert!(ExtensionConfiguration::default().generate_extension_header().is_none());
}

#[test]
fn server_accepts_deflate() {
    let config = deflate(Configuration::new());
    let (header, extensions) = config
        .accept_client_proposals(ExtensionIterator::new(
            "x-webkit-deflate-frame, permessage-deflate; server_max_window_bits=10, permessage-deflate",
        ))
        .unwrap();
    assert_eq!(header.as_deref(), Some("permessage-deflate; server_max_window_bits=10"));
    let extension = extensions.permessage_deflate.unwrap();
    assert_eq!(extension.compress_window_bits(), 10);
    assert!(!extension.no_local_context_takeover());
}

#[test]
fn server_ignores_deflate_when_disabled() {
    let (header, extensions) = ExtensionConfiguration::default()
        .accept_client_proposals(ExtensionIterator::new("permessage-deflate"))
        .unwrap();
    assert!(header.is_none());
    assert!(extensions.permessage_deflate.is_none());
}

#[test]
fn server_refuses_bad_params() {
    let config = deflate(Configuration::new());
    let check = |header: &str| config.accept_client_proposals(ExtensionIterator::new(header)).err().unwrap();
    assert!(matches!(check("permessage-deflate; foo"), Error::UnknownParameter));
    assert!(matches!(check("permessage-deflate; server_no_context_takeover=1"), Error::ParamDisallowsValue));
    assert!(matches!(check("permessage-deflate; client_max_window_bits"), Error::ParamRequiresValue));
    assert!(matches!(check("permessage-deflate; server_max_window_bits=08"), Error::InvalidServerMaxWindowBits));
    assert!(matches!(check("permessage-deflate; client_max_window_bits=16"), Error::InvalidClientMaxWindowBits));
    assert!(matches!(check(", permessage-deflate"), Error::Parsing(ParseError::ExpectedExtensionName)));
}

#[test]
fn client_checks_server_answer() {
    let config = deflate(Configuration::new());
    let extensions = config
        .verify_server_proposals(ExtensionIterator::new("permessage-deflate; client_no_context_takeover"))
        .unwrap();
    let extension = extensions.permessage_deflate.unwrap();
    assert!(extension.no_local_context_takeover());
    assert!(!extension.no_remote_context_takeover());
    assert!(matches!(
        config.verify_server_proposals(ExtensionIterator::new("x-foo")),
        Err(Error::ExtensionNeverProposed)
    ));
    assert!(matches!(
        config.verify_server_proposals(ExtensionIterator::new("permessage-deflate, permessage-deflate")),
        Err(Error::DuplicateExtension)
    ));
    let narrow = deflate(Configuration::new().client_max_window_bits(12));
    let extension = narrow
        .verify_server_proposals(ExtensionIterator::new("permessage-deflate; client_max_window_bits=10"))
        .unwrap()
        .permessage_deflate
        .unwrap();
    assert_eq!(extension.compress_window_bits(), 10);
    assert_eq!(extension.decompress_window_bits(), 15);
    assert!(matches!(
        config.verify_server_proposals(ExtensionIterator::new("permessage-deflate; client_max_window_bits=12")),
        Err(Error::DisallowedClientMaxWindowBits)
    ));
}

#[test]
fn client_refuses_unproposed_extension() {
    let none = ExtensionConfiguration::default();
    assert!(matches!(
        none.verify_server_proposals(ExtensionIterator::new("permessage-deflate")),
        Err(Error::ExtensionNeverProposed)
    ));
    assert!(matches!(
        none.verify_server_proposals(ExtensionIterator::new("permessage-deflate, permessage-deflate")),
        Err(Error::ExtensionNeverProposed)
    ));
}

#[test]
fn server_stores_client_window_bits() {
    let config = deflate(Configuration::new());
    let (header, extensions) = config
        .accept_client_proposals(ExtensionIterator::new("permessage-deflate; client_max_window_bits=11"))
        .unwrap();
    assert_eq!(header.as_deref(), Some("permessage-deflate; client_max_window_bits=11"));
    let extension = extensions.permessage_deflate.unwrap();
    assert_eq!(extension.decompress_window_bits(), 11);
    assert_eq!(extension.compress_window_bits(), 15);
}

#[test]
fn header_with_several_parameters_parses_back() {
    let config = deflate(
        Configuration::new()
            .server_no_context_takeover(true)
            .client_no_context_takeover(true)
            .client_max_window_bits(9),
    );
    let header = config.generate_extension_header().unwrap();
    assert_eq!(
        header,
        "permessage-deflate; server_no_context_takeover; client_no_context_takeover; client_max_window_bits=9"
    );
    let mut extensions = ExtensionIterator::new(&header);
    let mut extension = extensions.next().unwrap().unwrap();
    assert_eq!(extension.name, "permessage-deflate");
    assert_eq!(extension.params.next().unwrap().unwrap(), ("server_no_context_takeover", None));
    assert_eq!(extension.params.next().unwrap().unwrap(), ("client_no_context_takeover", None));
    assert_eq!(extension.params.next().unwrap().unwrap(), ("client_max_window_bits", Some("9")));
    assert!(extension.params.next().is_none());
    assert!(extensions.next().is_none());
}

#[test]
fn configured_extensions_without_negotiation() {
    let extensions = deflate(Configuration::new().server_no_context_takeover(true)).into_extensions(Role::Server);
    assert!(extensions.permessage_deflate.unwrap().no_local_context_takeover());
    assert!(ExtensionConfiguration::default().into_extensions(Role::Client).permessage_deflate.is_none());
}
