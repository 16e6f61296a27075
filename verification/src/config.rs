//! Service settings and the limits that hold whatever they say.

use crate::text;
use crate::text::{parse_u64, push_decimal};
use vstd::prelude::*;
use vstd::string::*;

verus! {

/// Where the service listens if nothing else is set.
pub const DEFAULT_BIND: &'static str = "127.0.0.1:7114";

/// Where uploads are kept if nothing else is set.
pub const DEFAULT_STATE_DIR: &'static str = "state/diagnostics";

/// The largest request body that is read.
pub const MAX_UPLOAD_BYTES: usize = 2 * 1024 * 1024;

/// The storage quota if none is set.
pub const DEFAULT_MAX_STORED_BYTES: u64 = 256 * 1024 * 1024;

/// The largest storage quota that can be set.
pub const MAX_CONFIGURED_STORED_BYTES: u64 = 64 * 1024 * 1024 * 1024;

/// The settings of a running service.
pub struct Config {
    pub bind: String,
    pub state_dir: String,
    pub admin_token: Option<String>,
    pub max_stored_bytes: u64,
}

impl Config {
    /// The settings are those that the values give, or their defaults.
    pub open spec fn is_settled_from(
        self,
        bind: Option<String>,
        state_dir: Option<String>,
        admin_token: Option<String>,
    ) -> bool {
        &&& self.bind@ == (match bind {
            Some(value) => value@,
            None => DEFAULT_BIND@,
        })
        &&& self.state_dir@ == (match state_dir {
            Some(value) => value@,
            None => DEFAULT_STATE_DIR@,
        })
        &&& self.admin_token == (match admin_token {
            Some(value) if value@.len() > 0 => Some(value),
            _ => None,
        })
    }
}

/// The quota that a setting stands for, or what is wrong with it.
pub open spec fn quota_setting(value: Option<Seq<char>>) -> Result<u64, Seq<char>> {
    match value {
        None => Ok(DEFAULT_MAX_STORED_BYTES),
        Some(text) => match text::parsed_u64(text) {
            None => Err("VAPOR_DIAGNOSTICS_MAX_STORED_BYTES must be numeric"@),
            Some(n) => if n == 0 || n > MAX_CONFIGURED_STORED_BYTES {
                Err(
                    "VAPOR_DIAGNOSTICS_MAX_STORED_BYTES must be between 1 and "@ + text::decimal(
                        MAX_CONFIGURED_STORED_BYTES as nat,
                    ),
                )
            } else {
                Ok(n)
            },
        },
    }
}

/// Reads the storage quota from its setting.
pub fn parse_max_stored_bytes(value: Option<String>) -> (quota: Result<u64, String>)
    ensures
        match quota_setting(text::optional_text(value)) {
            Ok(n) => quota == Ok::<u64, String>(n),
            Err(message) => quota matches Err(e) && e@ == message,
        },
{
    let Some(value) = value else {
        return Ok(DEFAULT_MAX_STORED_BYTES);
    };
    let Some(parsed) = parse_u64(value.as_str()) else {
        return Err("VAPOR_DIAGNOSTICS_MAX_STORED_BYTES must be numeric".to_owned());
    };
    if parsed == 0 || parsed > MAX_CONFIGURED_STORED_BYTES {
        let mut message = "VAPOR_DIAGNOSTICS_MAX_STORED_BYTES must be between 1 and ".to_owned();
        push_decimal(&mut message, MAX_CONFIGURED_STORED_BYTES as u128);
        return Err(message);
    }
    Ok(parsed)
}

/// Settles the settings from the values that the environment gives them. An
/// empty admin token counts as none.
pub fn read_config(
    bind: Option<String>,
    state_dir: Option<String>,
    admin_token: Option<String>,
    max_stored_bytes: Option<String>,
) -> (config: Result<Config, String>)
    ensures
        match quota_setting(text::optional_text(max_stored_bytes)) {
            Ok(quota) => config matches Ok(config) && config.is_settled_from(
                bind,
                state_dir,
                admin_token,
            ) && config.max_stored_bytes == quota,
            Err(message) => config matches Err(e) && e@ == message,
        },
{
    let max_stored_bytes = match parse_max_stored_bytes(max_stored_bytes) {
        Ok(quota) => quota,
        Err(message) => return Err(message),
    };
    let bind = match bind {
        Some(value) => value,
        None => DEFAULT_BIND.to_owned(),
    };
    let state_dir = match state_dir {
        Some(value) => value,
        None => DEFAULT_STATE_DIR.to_owned(),
    };
    let admin_token = match admin_token {
        Some(value) => if value.as_str().is_empty() {
            None
        } else {
            Some(value)
        },
        None => None,
    };
    Ok(Config { bind, state_dir, admin_token, max_stored_bytes })
}

/// A quota that is accepted is positive, within the limit, and any such number
/// is accepted when written in decimal.
pub proof fn law_accepted_quotas(value: Option<Seq<char>>, n: u64)
    ensures
        quota_setting(value) matches Ok(quota) ==> 1 <= quota <= MAX_CONFIGURED_STORED_BYTES,
        1 <= n <= MAX_CONFIGURED_STORED_BYTES ==> quota_setting(Some(text::decimal(n as nat))) == Ok::<
            u64,
            Seq<char>,
        >(n),
{
    text::law_decimal_reads_back(n);
}

/// Every setting of the quota is accepted or refused by the number it reads as: a
/// number from one to 68719476736 is the quota, other numbers and other texts are
/// refused, each with its message; without a setting the quota is 268435456.
pub proof fn law_quota_settings(setting: Seq<char>)
    ensures
        match text::parsed_u64(setting) {
            Some(n) => if 1 <= n <= 68719476736 {
                quota_setting(Some(setting)) == Ok::<u64, Seq<char>>(n)
            } else {
                quota_setting(Some(setting)) == Err::<u64, Seq<char>>(
                    "VAPOR_DIAGNOSTICS_MAX_STORED_BYTES must be between 1 and "@ + text::decimal(
                        68719476736,
                    ),
                )
            },
            None => quota_setting(Some(setting)) == Err::<u64, Seq<char>>(
                "VAPOR_DIAGNOSTICS_MAX_STORED_BYTES must be numeric"@,
            ),
        },
        quota_setting(None) == Ok::<u64, Seq<char>>(268435456),
{
}

/// What is set is used as it is, but an empty admin token, which is none; what is
/// not set has its default, and there is no default token.
pub proof fn law_settings_are_used(
    config: Config,
    bind: Option<String>,
    state_dir: Option<String>,
    admin_token: Option<String>,
)
    requires
        config.is_settled_from(bind, state_dir, admin_token),
    ensures
        bind matches Some(value) ==> config.bind@ == value@,
        bind is None ==> config.bind@ == "127.0.0.1:7114"@,
        state_dir matches Some(value) ==> config.state_dir@ == value@,
        state_dir is None ==> config.state_dir@ == "state/diagnostics"@,
        admin_token matches Some(token) && token@.len() > 0 ==> config.admin_token == admin_token,
        admin_token matches Some(token) && token@.len() == 0 ==> config.admin_token is None,
        admin_token is None ==> config.admin_token is None,
{
}

} // verus!
