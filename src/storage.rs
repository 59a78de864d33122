//! What the service writes for one measurement of a sensor, and where.

use vstd::prelude::*;
use crate::client::{opt_view, AfluenciaClient, ClientView};
use crate::configuration::Configuration;
use crate::line_protocol::{canonical, entry_map, DataPoint, Value, ValueView};

verus! {

/// Writes the measurements of the weather station to the time-series
/// database of its configuration.
pub struct StorageBackend {
    configuration: Configuration,
}

impl StorageBackend {
    /// The configuration this backend writes with.
    pub closed spec fn config(&self) -> Configuration {
        self.configuration
    }

    /// A backend for the given configuration.
    pub fn with_configuration(config: Configuration) -> (r: StorageBackend)
        ensures
            r.config() == config,
    {
        StorageBackend { configuration: config }
    }

    /// The client for the configured time-series database: its host, port
    /// and database, its credentials where they are set, and TLS as
    /// configured.
    pub fn influx_client(&self) -> (r: AfluenciaClient)
        ensures
            r@ == (ClientView {
                host: self.config().influx_storage.host@,
                database: self.config().influx_storage.database@,
                port: self.config().influx_storage.port,
                user: opt_view(self.config().influx_storage.user),
                password: opt_view(self.config().influx_storage.password),
                use_tls: self.config().influx_storage.use_ssl,
            }),
    {
        let influx = &self.configuration.influx_storage;
        let mut client = AfluenciaClient::new(
            influx.host.as_str(),
            influx.port,
            influx.database.as_str(),
        );
        if let Some(user) = &influx.user {
            client.user(user.clone());
        }
        if let Some(password) = &influx.password {
            client.password(password.clone());
        }
        client.tls(influx.use_ssl);
        client
    }

    /// The point for one measurement of `sensor`, taken at `timestamp`: in
    /// `weather_measurement`, tagged with the sensor, with the readings as
    /// float fields (each given as its decimal rendering) and `on_battery`
    /// false.
    pub fn measurement_point(
        sensor: &str,
        temperature: String,
        rel_humidity: String,
        abs_humidity: String,
        pressure: String,
        voltage: String,
        charge: String,
        timestamp: i64,
    ) -> (r: DataPoint)
        ensures
            canonical(r@),
            r@.measurement == "weather_measurement"@,
            entry_map(r@.tags) == Map::<Seq<char>, ValueView>::empty().insert(
                "sensor"@,
                ValueView::Text(sensor@),
            ),
            entry_map(r@.fields) == Map::<Seq<char>, ValueView>::empty().insert(
                "temperature"@,
                ValueView::Float(temperature@),
            ).insert("rel_humidity"@, ValueView::Float(rel_humidity@)).insert(
                "abs_humidity"@,
                ValueView::Float(abs_humidity@),
            ).insert("pressure"@, ValueView::Float(pressure@)).insert(
                "raw_battery_voltage"@,
                ValueView::Float(voltage@),
            ).insert("battery_charge"@, ValueView::Float(charge@)).insert(
                "on_battery"@,
                ValueView::Boolean(false),
            ),
            r@.timestamp == Some(timestamp),
    {
        let mut point = DataPoint::new("weather_measurement");
        proof {
            assert(entry_map(point@.tags) =~= Map::empty());
            assert(entry_map(point@.fields) =~= Map::empty());
        }
        point.add_tag("sensor", Value::String(sensor.to_owned()));
        point.add_field("temperature", Value::Float(temperature));
        point.add_field("rel_humidity", Value::Float(rel_humidity));
        point.add_field("abs_humidity", Value::Float(abs_humidity));
        point.add_field("pressure", Value::Float(pressure));
        point.add_field("raw_battery_voltage", Value::Float(voltage));
        point.add_field("battery_charge", Value::Float(charge));
        point.add_field("on_battery", Value::Boolean(false));
        point.add_timestamp(timestamp);
        point
    }
}

} // verus!
