//! What a client of OpenRouter is made of: its settings and whether it has a
//! key.
use vstd::prelude::*;
use crate::config::{Config, ConfigError, ConfigText};
use crate::openrouter::accounting::{catalog_cap, derived_catalog_request_cap};
use crate::text::{trim, trimmed};

verus! {

/// A client with its settings.
pub struct OpenRouterClient {
    pub config: Config,
    pub api_key_present: bool,
}

/// Why there is no client.
#[derive(Clone, Copy, Debug, PartialEq, Eq, Structural)]
pub enum ClientError {
    Settings(ConfigError),
    MissingKey,
}

impl ClientError {
    pub open spec fn text(self) -> Seq<char> {
        match self {
            ClientError::Settings(fault) => fault.text(),
            ClientError::MissingKey => "未设置 OPENROUTER_API_KEY；请先在当前终端导出 OpenRouter API Key"@,
        }
    }

    pub fn message(self) -> (text: String)
        ensures
            text@ == self.text(),
    {
        match self {
            ClientError::Settings(fault) => fault.message(),
            ClientError::MissingKey => {
                "未设置 OPENROUTER_API_KEY；请先在当前终端导出 OpenRouter API Key".to_owned()
            },
        }
    }
}

/// Settings with another model.
pub open spec fn with_model(config: ConfigText, model: Seq<char>) -> ConfigText {
    ConfigText { model, ..config }
}

impl OpenRouterClient {
    /// A client with the settings and the key that the environment holds, which
    /// is empty where it holds none.
    pub fn from_environment(config: Config, key: &str, require_api_key: bool) -> (result: Result<
        Self,
        ClientError,
    >)
        ensures
            match result {
                Ok(client) => client.config == config && config@.valid() && client.api_key_present
                    == (trimmed(key@).len() > 0) && (require_api_key ==> client.api_key_present),
                Err(ClientError::Settings(fault)) => config@.fault() == Some(fault),
                Err(ClientError::MissingKey) => config@.valid() && require_api_key && trimmed(
                    key@,
                ).len() == 0,
            },
    {
        if let Err(fault) = config.validate() {
            return Err(ClientError::Settings(fault));
        }
        let inner = trim(key);
        let api_key_present = !inner.as_str().is_empty();
        if require_api_key && !api_key_present {
            return Err(ClientError::MissingKey);
        }
        Ok(OpenRouterClient { config, api_key_present })
    }

    /// A client for another model; all else stays.
    pub fn routed_to_model(&self, model: &str) -> (result: Result<Self, ClientError>)
        ensures
            match result {
                Ok(client) => client.config@ == with_model(self.config@, model@) && with_model(
                    self.config@,
                    model@,
                ).valid() && client.api_key_present == self.api_key_present,
                Err(ClientError::Settings(fault)) => with_model(self.config@, model@).fault()
                    == Some(fault),
                Err(ClientError::MissingKey) => false,
            },
    {
        let mut config = self.config.clone();
        config.model = model.to_owned();
        assert(config@ == with_model(self.config@, model@));
        if let Err(fault) = config.validate() {
            return Err(ClientError::Settings(fault));
        }
        Ok(OpenRouterClient { config, api_key_present: self.api_key_present })
    }

    /// How many catalog requests a task may make.
    pub fn max_catalog_requests(&self) -> (cap: u32)
        ensures
            cap == catalog_cap(self.config.max_http_attempts),
    {
        derived_catalog_request_cap(self.config.max_http_attempts)
    }
}

} // verus!
