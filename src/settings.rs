//! Broker settings: where to listen and where the credentials are.
use vstd::prelude::*;

verus! {

#[derive(Debug, Clone)]
pub struct MqttSettings {
    /// Listen addresses, each `host:port`.
    pub listeners_tcp: Vec<String>,
}

#[derive(Debug, Clone)]
pub struct AuthenticationSettings {
    pub password_file: String,
}

#[derive(Debug, Clone)]
pub struct Settings {
    pub mqtt: MqttSettings,
    pub authentication: AuthenticationSettings,
}

impl Settings {
    pub fn new(mqtt: MqttSettings, authentication: AuthenticationSettings) -> (r: Settings)
        ensures
            r.mqtt == mqtt,
            r.authentication == authentication,
    {
        Settings { mqtt, authentication }
    }
}

} // verus!
