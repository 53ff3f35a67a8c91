use bucketlink::settings::{Config, ConfigError, DEFAULT_CAPACITY};

#[test]
fn nothing_said_gives_the_defaults() {
    let config = Config::default();
    assert_eq!(config.source_directory, ".");
    assert_eq!(config.link_destination, "part");
    assert_eq!(config.bucket_capacity, 15_000_000);
    assert_eq!(DEFAULT_CAPACITY, 15_000_000);
    assert!(!config.recursive);
    assert!(!config.dry_run);
    assert!(!config.verbose);
}

#[test]
fn assembling_from_nothing_gives_the_defaults() {
    let config = Config::assemble(None, None, None, false, false, false).ok().unwrap();
    assert_eq!(config.source_directory, ".");
    assert_eq!(config.link_destination, "part");
    assert_eq!(config.bucket_capacity, 15_000_000);
    assert!(!config.recursive && !config.dry_run && !config.verbose);
}

#[test]
fn what_is_given_is_kept() {
    let config = Config::assemble(
        Some(String::from("/data")),
        Some(String::from("out")),
        Some("2.5G"),
        true,
        false,
        true,
    )
    .ok()
    .unwrap();
    assert_eq!(config.source_directory, "/data");
    assert_eq!(config.link_destination, "out");
    assert_eq!(config.bucket_capacity, 2_500_000_000);
    assert!(config.recursive);
    assert!(!config.dry_run);
    assert!(config.verbose);
}

#[test]
fn the_default_capacity_is_fifteen_decimal_megabytes() {
    let config = Config::assemble(None, None, Some("15M"), false, true, false).ok().unwrap();
    assert_eq!(config.bucket_capacity, Config::default().bucket_capacity);
    assert!(config.dry_run);
}

#[test]
fn a_capacity_that_is_no_size_is_refused() {
    assert_eq!(
        Config::assemble(None, None, Some("lots"), false, false, false).err(),
        Some(ConfigError::InvalidFormat)
    );
    assert_eq!(
        Config::assemble(None, None, Some(""), false, false, false).err(),
        Some(ConfigError::InvalidFormat)
    );
}

#[test]
fn a_capacity_of_zero_is_refused() {
    assert_eq!(
        Config::assemble(None, None, Some("0"), false, false, false).err(),
        Some(ConfigError::ZeroCapacity)
    );
    assert_eq!(
        Config::assemble(None, None, Some("0.0004K"), false, false, false).err(),
        Some(ConfigError::ZeroCapacity)
    );
}
