use highres::ipc::{
    init_record_pub_from_market_ipc, normalize_ipc_endpoint, normalize_ipc_prefix,
    record_endpoint, record_path_from_market_ipc, symbol_from_ipc_path, RecordPubInit,
};

#[test]
fn record_path_under_market_prefix() {
    assert_eq!(
        record_path_from_market_ipc("ipc:///tmp/mth_pubs/okx/eth.ipc"),
        Some("/tmp/mth_pubs/stream_pairmm/okx/eth.ipc".to_string())
    );
    assert_eq!(
        record_path_from_market_ipc("  /tmp/mth_pubs/binance/btc.ipc/ "),
        Some("/tmp/mth_pubs/stream_pairmm/binance/btc.ipc".to_string())
    );
}

#[test]
fn record_path_refused_outside_prefix() {
    assert_eq!(record_path_from_market_ipc("ipc:///tmp/other/eth.ipc"), None);
    assert_eq!(record_path_from_market_ipc("/tmp/mth_pubs/"), None);
    assert_eq!(record_path_from_market_ipc(""), None);
}

#[test]
fn record_endpoint_parts() {
    let e = record_endpoint("/tmp/mth_pubs/stream_pairmm/okx/eth.ipc");
    assert_eq!(e.endpoint, "ipc:///tmp/mth_pubs/stream_pairmm/okx/eth.ipc");
    assert_eq!(e.fs_path, "/tmp/mth_pubs/stream_pairmm/okx/eth.ipc");
    let e = record_endpoint("ipc:///tmp/x.ipc");
    assert_eq!(e.endpoint, "ipc:///tmp/x.ipc");
    assert_eq!(e.fs_path, "/tmp/x.ipc");
}

#[test]
fn record_pub_init_plans() {
    assert!(matches!(
        init_record_pub_from_market_ipc(true, "ipc:///tmp/mth_pubs/okx/eth.ipc"),
        RecordPubInit::AlreadyInitialized
    ));
    assert!(matches!(
        init_record_pub_from_market_ipc(false, "ipc:///tmp/elsewhere/eth.ipc"),
        RecordPubInit::InvalidPath
    ));
    match init_record_pub_from_market_ipc(false, "ipc:///tmp/mth_pubs/okx/eth.ipc") {
        RecordPubInit::Bind { endpoint, fs_path } => {
            assert_eq!(endpoint, "ipc:///tmp/mth_pubs/stream_pairmm/okx/eth.ipc");
            assert_eq!(fs_path, "/tmp/mth_pubs/stream_pairmm/okx/eth.ipc");
        }
        _ => panic!("expected a bind plan"),
    }
}

#[test]
fn ipc_prefix_normalized() {
    assert_eq!(normalize_ipc_prefix("/tmp/mth_pubs/"), "ipc:///tmp/mth_pubs");
    assert_eq!(normalize_ipc_prefix("ipc:///tmp/mth_pubs//"), "ipc:///tmp/mth_pubs");
    assert_eq!(normalize_ipc_prefix("ipc:///tmp/a"), "ipc:///tmp/a");
}

#[test]
fn ipc_endpoint_normalized() {
    assert_eq!(normalize_ipc_endpoint("   "), None);
    assert_eq!(
        normalize_ipc_endpoint(" /tmp/a/eth.ipc/ "),
        Some("ipc:///tmp/a/eth.ipc".to_string())
    );
    assert_eq!(
        normalize_ipc_endpoint("ipc:///tmp/a/eth.ipc"),
        Some("ipc:///tmp/a/eth.ipc".to_string())
    );
}

#[test]
fn symbol_from_path_stem() {
    assert_eq!(symbol_from_ipc_path("/tmp/mth_pubs/okx/ETHUSDT.ipc"), Some("ETHUSDT".to_string()));
    assert_eq!(symbol_from_ipc_path("ipc:///tmp/x/DOTUSDT"), Some("DOTUSDT".to_string()));
    assert_eq!(symbol_from_ipc_path("/tmp/a/b.c.ipc"), Some("b.c".to_string()));
    assert_eq!(symbol_from_ipc_path("/tmp/a/.hidden"), Some(".hidden".to_string()));
    assert_eq!(symbol_from_ipc_path("/tmp/a/eth.ipc/"), Some("eth".to_string()));
    assert_eq!(symbol_from_ipc_path("/"), None);
    assert_eq!(symbol_from_ipc_path("/tmp/.."), None);
    assert_eq!(symbol_from_ipc_path("/tmp/ .ipc"), None);
}
