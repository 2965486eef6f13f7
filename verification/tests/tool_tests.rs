//! The data types around the codec: manifest defaults and naming,
//! credential lifetimes, package specifications and size rendering.

use vayload_kit::auth::{ClientType, OAuthState};
use vayload_kit::config::{default_config_path, AppConfig, AppServer};
use vayload_kit::credentials_manager::{CredentialManager, RawCredentials};
use vayload_kit::manifest::{
    FileSystemScope, Limits, PluginAccess, PluginConfig, PluginManifest, StringMap,
};
use vayload_kit::types::PluginResponse;
use vayload_kit::utils::{format_bytes, parse_package};

#[test]
fn manifest_default_fields() {
    let m = PluginManifest::default();
    assert_eq!(m.version, "0.1.0");
    assert_eq!(m.license, "MIT");
    assert_eq!(m.main, "src/init.lua");
    assert!(m.permissions.is_some());
    assert!(m.config.is_some());
    assert_eq!(m.dependencies.len(), 0);
}

#[test]
fn manifest_set_name_lowers_and_dashes() {
    let mut m = PluginManifest::default();
    m.set_name("My Great Plugin".to_string());
    assert_eq!(m.name, "my-great-plugin");
    assert_eq!(m.display_name, "My Great Plugin");
}

#[test]
fn string_map_inserts_and_overwrites() {
    let mut deps = StringMap::new();
    deps.insert("alpha".to_string(), "1.0".to_string());
    deps.insert("beta".to_string(), "2.0".to_string());
    deps.insert("alpha".to_string(), "1.1".to_string());
    assert_eq!(deps.len(), 2);
    assert_eq!(deps.get("alpha"), Some(&"1.1".to_string()));
    assert_eq!(deps.get("beta"), Some(&"2.0".to_string()));
    assert_eq!(deps.get("gamma"), None);
}

#[test]
fn limits_and_config_defaults() {
    let l = Limits::default();
    assert_eq!(l.max_memory_mb, 128);
    assert_eq!(l.max_execution_time_ms, 10000);
    assert_eq!(l.max_threads, 10);
    let c = PluginConfig::default();
    assert_eq!(c.max_file_size, 5 * 1024 * 1024);
    assert_eq!(c.chunk_size, 4096);
    assert_eq!(c.retry_attempts, 3);
    assert_eq!(FileSystemScope::default(), FileSystemScope::NoAccess);
}

#[test]
fn plugin_access_names() {
    assert_eq!(PluginAccess::Public.as_str(), "public");
    assert_eq!(PluginAccess::Private.as_str(), "private");
    assert_eq!(PluginAccess::from_str("public"), Ok(PluginAccess::Public));
    assert_eq!(PluginAccess::from_str("private"), Ok(PluginAccess::Private));
    assert_eq!(
        PluginAccess::from_str("everyone"),
        Err("Invalid access level: everyone".to_string())
    );
}

#[test]
fn client_type_from_wire_names() {
    assert_eq!(ClientType::from_str("web"), Ok(ClientType::Web));
    assert_eq!(ClientType::from_str("cli"), Ok(ClientType::Cli));
    assert_eq!(ClientType::from_str(""), Ok(ClientType::Web));
    assert_eq!(
        ClientType::from_str("phone"),
        Err("Invalid client type".to_string())
    );
}

#[test]
fn oauth_state_reassembles_from_decoded_text() {
    let st = OAuthState::from_decoded("st|https://o.test||chall|cli").unwrap();
    assert_eq!(st.state, "st");
    assert_eq!(st.origin_uri, "https://o.test");
    assert_eq!(st.redirect_uri, None);
    assert_eq!(st.code_challenge, "chall");
    assert_eq!(st.client_type, ClientType::Cli);
    let st2 = OAuthState::from_decoded("a|b|r|c|web").unwrap();
    assert_eq!(st2.redirect_uri, Some("r".to_string()));
    assert_eq!(st2.client_type, ClientType::Web);
    assert!(OAuthState::from_decoded("only|four|parts").is_err());
    assert!(OAuthState::from_decoded("a|b|c|d|phone").is_err());
}

#[test]
fn raw_credentials_derive_refresh_life() {
    let raw = RawCredentials::new("at".to_string(), "rt".to_string(), 3600);
    assert_eq!(raw.access_expires_in, 3600);
    assert_eq!(raw.refresh_expires_in, 60 * 24 * 60 * 60);
}

#[test]
fn credential_expiry_has_a_grace_margin() {
    let raw = RawCredentials::new("at".to_string(), "rt".to_string(), 120);
    let creds = raw.to_credentials(1000);
    let cm = CredentialManager::new("/tmp/cfg".to_string(), Some(creds));
    // The access token expires at 1120; the margin starts at 1090.
    assert!(!cm.is_access_token_expired(1089));
    assert!(cm.is_access_token_expired(1090));
    assert!(cm.is_authenticated(1089));
    assert_eq!(cm.get_access_token(), Ok("at".to_string()));
    assert_eq!(cm.get_refresh_token(), Ok("rt".to_string()));
    assert_eq!(cm.credentials_path(), "/tmp/cfg/credentials.enc");
    assert_eq!(cm.key_path(), "/tmp/cfg/.key");
}

#[test]
fn missing_credentials_count_as_expired() {
    let cm = CredentialManager::new("/tmp/cfg".to_string(), None);
    assert!(cm.is_access_token_expired(0));
    assert!(cm.is_refresh_token_expired(0));
    assert!(!cm.is_authenticated(0));
    assert!(cm.get_access_token().is_err());
}

#[test]
fn package_specifications_split_at_the_first_at() {
    assert_eq!(
        parse_package("name@1.2.3"),
        ("name".to_string(), Some("1.2.3".to_string()))
    );
    assert_eq!(parse_package("name"), ("name".to_string(), None));
    assert_eq!(
        parse_package("a@b@c"),
        ("a".to_string(), Some("b@c".to_string()))
    );
    assert_eq!(parse_package(""), ("".to_string(), None));
}

#[test]
fn byte_counts_render_for_people() {
    assert_eq!(format_bytes(512), "512 B");
    assert_eq!(format_bytes(1536), "1.50 KB");
    assert_eq!(format_bytes(5 * 1024 * 1024), "5.00 MB");
    assert_eq!(format_bytes(1048576 + 524288), "1.50 MB");
}

#[test]
fn plugin_response_carries_name_and_slug() {
    let r = PluginResponse { name: "Demo".to_string(), slug: "demo".to_string() };
    assert_eq!(r.name, "Demo");
    assert_eq!(r.slug, "demo");
}

#[test]
fn config_holds_the_registry_url() {
    assert_eq!(default_config_path(), "./config.toml");
    let c = AppConfig { server: AppServer { registry_url: "https://example.test".to_string() } };
    assert_eq!(c.server.registry_url, "https://example.test");
}
