use ikv::config::IKVStoreConfig;

#[test]
fn test_fetch_server_configs() {
    // the account settings a client supplies before asking the control
    // plane for the store's gateway settings; the fetch itself is the
    // network collaborator's, so what stands here is the configuration
    // the store consumes
    let mut user_supplied_cfg = IKVStoreConfig::new();
    user_supplied_cfg.set_string("account_id".to_string(), "testing-account-v1".to_string());
    user_supplied_cfg.set_string(
        "account_passkey".to_string(),
        "testing-account-passkey".to_string(),
    );
    user_supplied_cfg.set_string("store_name".to_string(), "testing-store".to_string());

    let server_supplied_cfg = &user_supplied_cfg;
    assert_eq!(
        server_supplied_cfg.get_string("account_id").unwrap(),
        "testing-account-v1"
    );
    assert_eq!(
        server_supplied_cfg.get_string("account_passkey").unwrap(),
        "testing-account-passkey"
    );
    println!("Server config: {}", server_supplied_cfg.get_string("store_name").unwrap());
}
