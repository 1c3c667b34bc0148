//! Settings, chain parameters and checked amount arithmetic.

use rune_index::lot::Lot;
use rune_index::settings::{rpc_not_found, Chain, Credentials, Options, Settings};

fn options() -> Options {
    Options {
        bitcoin_data_dir: None,
        bitcoin_rpc_password: None,
        bitcoin_rpc_url: Some(String::from("http://127.0.0.1:9000")),
        bitcoin_rpc_username: None,
    }
}

#[test]
fn from_options_copies_fields() {
    let s = Settings::from_options(options());
    assert_eq!(s.bitcoin_rpc_url.as_deref(), Some("http://127.0.0.1:9000"));
    assert!(s.bitcoin_rpc_username.is_none());
    assert!(s.bitcoin_last_block.is_none());
    assert!(s.cookie_file.is_none());
}

#[test]
fn rpc_url_with_and_without_wallet() {
    let s = Settings::from_options(options());
    assert_eq!(s.bitcoin_rpc_url(None), "http://127.0.0.1:9000/");
    assert_eq!(
        s.bitcoin_rpc_url(Some(String::from("w1"))),
        "http://127.0.0.1:9000/wallet/w1",
    );
}

#[test]
fn credentials_prefer_user_and_password() {
    let mut o = options();
    o.bitcoin_rpc_username = Some(String::from("alice"));
    o.bitcoin_rpc_password = Some(String::from("correct horse"));
    let s = Settings::from_options(o);
    match s.bitcoin_credentials(String::from("/home/u")) {
        Credentials::UserPass(u, p) => {
            assert_eq!(u, "alice");
            assert_eq!(p, "correct horse");
        },
        _ => panic!("expected user/password credentials"),
    }
}

#[test]
fn credentials_fall_back_to_cookie_file() {
    let s = Settings::from_options(options());
    match s.bitcoin_credentials(String::from("/home/u/.bitcoin")) {
        Credentials::CookieFile(f) => {
            // The chain is regtest, so the cookie lies in its subdirectory.
            assert_eq!(f, "/home/u/.bitcoin/regtest/.cookie");
        },
        _ => panic!("expected a cookie file"),
    }
}

#[test]
fn cookie_file_respects_explicit_setting() {
    let mut s = Settings::from_options(options());
    s.cookie_file = Some(String::from("/tmp/cookie"));
    assert_eq!(s.cookie_file(String::from("/ignored")), "/tmp/cookie");
}

#[test]
fn cookie_file_prefers_configured_data_dir() {
    let mut s = Settings::from_options(options());
    s.bitcoin_data_dir = Some(String::from("/data"));
    assert_eq!(s.cookie_file(String::from("/ignored")), "/data/regtest/.cookie");
}

#[test]
fn chain_parameters() {
    assert_eq!(Chain::default(), Chain::Mainnet);
    assert_eq!(Chain::Mainnet.default_rpc_port(), 8332);
    assert_eq!(Chain::Regtest.default_rpc_port(), 18443);
    assert_eq!(Chain::Signet.default_rpc_port(), 38332);
    assert_eq!(Chain::Testnet.default_rpc_port(), 18332);
    assert_eq!(Chain::Mainnet.inscription_content_size_limit(), None);
    assert_eq!(Chain::Testnet.inscription_content_size_limit(), Some(1024));
    assert_eq!(Chain::Mainnet.first_inscription_height(), 767430);
    assert_eq!(Chain::Regtest.first_inscription_height(), 0);
    assert_eq!(Chain::Mainnet.jubilee_height(), 824544);
    assert_eq!(Chain::Regtest.jubilee_height(), 110);
    assert_eq!(
        Chain::Testnet.join_with_data_dir(String::from("/d")),
        "/d/testnet3",
    );
    assert_eq!(Chain::Mainnet.join_with_data_dir(String::from("/d")), "/d");
}

#[test]
fn rpc_not_found_rule() {
    assert!(rpc_not_found(-8, b"some message"));
    assert!(rpc_not_found(-5, b"Block not found"));
    assert!(!rpc_not_found(-5, b"Block not found!"));
    assert!(!rpc_not_found(-5, b"short"));
    assert!(!rpc_not_found(0, b"connection refused"));
}

#[test]
fn lot_checked_arithmetic() {
    let a = Lot { value: 30 };
    let b = Lot { value: 70 };
    assert_eq!(a.checked_add(b), Some(Lot { value: 100 }));
    assert_eq!(b.checked_sub(a), Some(Lot { value: 40 }));
    assert_eq!(a.checked_sub(b), None);
    assert_eq!(a.checked_mul(3), Some(Lot { value: 90 }));
    assert_eq!(Lot { value: u128::MAX }.checked_add(Lot { value: 1 }), None);
    assert_eq!(Lot { value: u128::MAX }.checked_mul(2), None);
    assert_eq!(Lot { value: u128::MAX }.checked_mul(1), Some(Lot { value: u128::MAX }));
    assert_eq!(a.min(b), a);
    assert_eq!(Lot::zero(), Lot::default());
}
