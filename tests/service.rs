use afluencia::configuration::{Configuration, DatabaseConfiguration, InfluxConfiguration};
use afluencia::line_protocol::line_serialization;
use afluencia::storage::StorageBackend;

#[test]
fn default_configuration() {
    let c = Configuration::default();
    assert_eq!("localhost", c.influx_storage.host);
    assert_eq!("database_name", c.influx_storage.database);
    assert_eq!(8086, c.influx_storage.port);
    assert!(c.influx_storage.user.is_none());
    assert!(c.influx_storage.password.is_none());
    assert!(c.influx_storage.use_ssl);
    assert_eq!(vec!["DEADBEEF", "BEEFCACE", "BADDCAFE"], c.allowed_sensors);
}

#[test]
fn only_listed_sensors_are_allowed() {
    let c = Configuration::default();
    assert!(c.is_sensor_allowed("DEADBEEF"));
    assert!(c.is_sensor_allowed("BADDCAFE"));
    assert!(!c.is_sensor_allowed("UNKNOWN"));
    assert!(!c.is_sensor_allowed("deadbeef"));
    assert!(!c.is_sensor_allowed(""));
}

#[test]
fn database_connection_url() {
    let d = DatabaseConfiguration {
        host: String::from("db"),
        port: 5432,
        user: String::from("weather"),
        password: String::from("SECRET-REDACTED"),
        database: String::from("station"),
    };
    assert_eq!("postgres://weather:SECRET-REDACTED@db:5432/station", d.connection_url());
}

#[test]
fn backend_client_follows_configuration() {
    let mut config = Configuration::default();
    config.influx_storage = InfluxConfiguration {
        host: String::from("influx"),
        database: String::from("weather"),
        port: 8086,
        user: Some(String::from("writer")),
        password: None,
        use_ssl: false,
    };
    let backend = StorageBackend::with_configuration(config);
    assert_eq!(
        "http://influx:8086/write?db=weather&u=writer",
        backend.influx_client().get_write_base_url()
    );
    let tls = StorageBackend::with_configuration(Configuration::default());
    assert_eq!(
        "https://localhost:8086/write?db=database_name",
        tls.influx_client().get_write_base_url()
    );
}

#[test]
fn measurement_point_encoding() {
    let p = StorageBackend::measurement_point(
        "DEADBEEF",
        27.05f64.to_string(),
        37.95f64.to_string(),
        9.5f64.to_string(),
        1011.72f64.to_string(),
        713f64.to_string(),
        51.13f64.to_string(),
        1_600_000_000_000_000_000,
    );
    assert_eq!(
        "weather_measurement,sensor=DEADBEEF abs_humidity=9.5,battery_charge=51.13,on_battery=false,pressure=1011.72,raw_battery_voltage=713,rel_humidity=37.95,temperature=27.05 1600000000000000000\n",
        line_serialization(p).unwrap()
    );
}
