use service_lifecycle::config::{Bootstrap, CapabilityKind, Config, Runtime, SocketAddress};
use service_lifecycle::state::{AppState, Error};

fn config(database_url: Option<&str>, capabilities: Vec<CapabilityKind>) -> Config {
    Config {
        bootstrap: Bootstrap {
            listen: SocketAddress::V4 { a: 0, b: 0, c: 0, d: 0, port: 3000 },
            database_url: database_url.map(|u| u.to_string()),
        },
        runtime: Runtime { capabilities },
    }
}

#[test]
fn container_without_capabilities() {
    let s = AppState::from_config(&config(Some("sqlite::memory:"), vec![])).unwrap();
    assert!(s.get(CapabilityKind::Database).is_none());
}

#[test]
fn container_exposes_declared_capability() {
    let s = AppState::from_config(&config(Some("sqlite::memory:"), vec![CapabilityKind::Database]))
        .unwrap();
    let c = s.get(CapabilityKind::Database).unwrap();
    assert_eq!(c.kind, CapabilityKind::Database);
    assert_eq!(c.coordinate, "sqlite::memory:");
    let shared = s.clone();
    assert!(shared.get(CapabilityKind::Database).is_some());
}

#[test]
fn container_requires_coordinate() {
    let r = AppState::from_config(&config(None, vec![CapabilityKind::Database]));
    assert_eq!(r.unwrap_err(), Error::MissingCoordinate { kind: CapabilityKind::Database });
}

#[test]
fn container_rejects_duplicate_capability() {
    let r = AppState::from_config(&config(
        Some("sqlite::memory:"),
        vec![CapabilityKind::Database, CapabilityKind::Database],
    ));
    assert_eq!(r.unwrap_err(), Error::DuplicateCapability { kind: CapabilityKind::Database });
}

#[test]
fn declared_capability_is_looked_up_without_option() {
    let s = AppState::from_config(&config(Some("sqlite://app.db"), vec![CapabilityKind::Database]))
        .unwrap();
    let c = s.capability(CapabilityKind::Database);
    assert_eq!(c.kind, CapabilityKind::Database);
    assert_eq!(c.coordinate, "sqlite://app.db");
}
