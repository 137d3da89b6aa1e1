use log::LevelFilter;
use netoptim_rs::logging::is_logger_initialized;
use std::sync::OnceLock;

#[test]
fn test_is_logger_initialized() {
    let marker: OnceLock<()> = OnceLock::new();
    marker.get_or_init(|| ());
    let _ = env_logger::Builder::from_default_env()
        .filter_level(LevelFilter::Info)
        .try_init();
    let initialized = is_logger_initialized(marker.get());
    assert!(initialized);
}

#[test]
fn logger_is_not_initialized_before_the_marker_is_set() {
    let marker: OnceLock<()> = OnceLock::new();
    assert!(!is_logger_initialized(marker.get()));
}
