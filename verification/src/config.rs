//! The values a configuration file and the environment provide - API base
//! url, API key, default model - and the rules for resolving and normalizing
//! them. Reading files and environment variables happens outside; this module
//! holds the decisions.

use vstd::prelude::*;
use vstd::string::*;

verus! {

/// Why configuration could not be loaded.
pub enum ConfigError {
    FileNotFound(String),
    ParseError(String),
    IoError(String),
}

impl ConfigError {
    /// The message shown for this error.
    pub fn message(&self) -> (r: String)
        ensures
            r@ == match self {
                ConfigError::FileNotFound(m) => "File not found: "@ + m@,
                ConfigError::ParseError(m) => "Parse error: "@ + m@,
                ConfigError::IoError(m) => "IO error: "@ + m@,
            },
    {
        match self {
            ConfigError::FileNotFound(m) => {
                let mut r = "File not found: ".to_owned();
                r.append(m.as_str());
                r
            },
            ConfigError::ParseError(m) => {
                let mut r = "Parse error: ".to_owned();
                r.append(m.as_str());
                r
            },
            ConfigError::IoError(m) => {
                let mut r = "IO error: ".to_owned();
                r.append(m.as_str());
                r
            },
        }
    }
}

/// The three settings a configuration file can hold. A `None` field was
/// absent; an empty string counts as unset when read.
pub struct Config {
    pub base_url: Option<String>,
    pub api_key: Option<String>,
    pub default_model: Option<String>,
}

impl Config {
    /// The configured base url, unless it is absent or empty.
    pub fn get_base_url(&self) -> (r: Option<&str>)
        ensures
            r matches Some(s) ==> self.base_url matches Some(b) && s@ == b@ && s@.len() > 0,
            r is None ==> (self.base_url is None || (self.base_url matches Some(b) && b@.len()
                == 0)),
    {
        match &self.base_url {
            Some(s) => {
                if !s.as_str().is_empty() {
                    Some(s.as_str())
                } else {
                    None
                }
            },
            None => None,
        }
    }

    /// The configured API key, unless it is absent or empty.
    pub fn get_api_key(&self) -> (r: Option<&str>)
        ensures
            r matches Some(s) ==> self.api_key matches Some(b) && s@ == b@ && s@.len() > 0,
            r is None ==> (self.api_key is None || (self.api_key matches Some(b) && b@.len()
                == 0)),
    {
        match &self.api_key {
            Some(s) => {
                if !s.as_str().is_empty() {
                    Some(s.as_str())
                } else {
                    None
                }
            },
            None => None,
        }
    }

    /// The configured default model, unless it is absent or empty.
    pub fn get_default_model(&self) -> (r: Option<&str>)
        ensures
            r matches Some(s) ==> self.default_model matches Some(b) && s@ == b@ && s@.len()
                > 0,
            r is None ==> (self.default_model is None || (self.default_model matches Some(b)
                && b@.len() == 0)),
    {
        match &self.default_model {
            Some(s) => {
                if !s.as_str().is_empty() {
                    Some(s.as_str())
                } else {
                    None
                }
            },
            None => None,
        }
    }
}

/// A setting read from the environment first, then from the configuration
/// file; when neither has it, the error names the missing variable.
pub fn resolve_setting(env_value: Option<String>, config_value: Option<String>, envvar: &str) -> (r:
    Result<String, String>)
    ensures
        env_value matches Some(v) ==> (r matches Ok(s) && s@ == v@),
        env_value is None ==> match config_value {
            Option::Some(c) => r matches Ok(s) && s@ == c@,
            Option::None => r matches Err(m) && m@
                == "Could not find environment variable '"@ + envvar@
                + "' or any related configuration\nPlease check you config file"@,
        },
{
    match env_value {
        Some(v) => Ok(v),
        None => match config_value {
            Some(c) => Ok(c),
            None => {
                let mut m = "Could not find environment variable '".to_owned();
                m.append(envvar);
                m.append("' or any related configuration\nPlease check you config file");
                Err(m)
            },
        },
    }
}

/// A base url with exactly one trailing slash appended when it lacks one.
pub fn ensure_trailing_slash(base_url: String) -> (r: String)
    ensures
        base_url@.len() > 0 && base_url@.last() == '/' ==> r@ == base_url@,
        !(base_url@.len() > 0 && base_url@.last() == '/') ==> r@ == base_url@.push('/'),
{
    let n = base_url.as_str().unicode_len();
    if n > 0 && base_url.as_str().get_char(n - 1) == '/' {
        base_url
    } else {
        let ghost before = base_url@;
        let mut r = base_url;
        r.append("/");
        proof {
            reveal_strlit("/");
            assert(r@ =~= before.push('/'));
        }
        r
    }
}

/// How the chosen models are to be determined.
pub enum SelectionPlan {
    /// Prompt the user with an interactive selection.
    Interactive,
    /// Use exactly these models.
    Chosen(Vec<String>),
    /// Fall back to the configured default.
    NeedDefault,
}

/// The decision behind model selection: explicit identifiers are used as
/// given, the sentinel `interactive` asks for a prompt, and no argument at
/// all falls back to the default.
pub fn plan_selection(models: Option<Vec<String>>) -> (r: SelectionPlan)
    requires
        models matches Some(ids) ==> ids@.len() > 0,
    ensures
        models is None ==> r is NeedDefault,
        models matches Some(ids) ==> if ids@[0]@ == "interactive"@ {
            r is Interactive
        } else {
            r matches SelectionPlan::Chosen(c) && c@ == ids@
        },
{
    match models {
        None => SelectionPlan::NeedDefault,
        Some(ids) => {
            let sentinel = "interactive".to_owned();
            if ids[0].eq(&sentinel) {
                SelectionPlan::Interactive
            } else {
                SelectionPlan::Chosen(ids)
            }
        },
    }
}

/// The default model: the environment's value first, then the configuration
/// file's, else an error.
pub fn default_model_ids(env_default: Option<String>, config_default: Option<String>) -> (r: Result<
    Vec<String>,
    String,
>)
    ensures
        env_default matches Some(e) ==> (r matches Ok(v) && v.deep_view() == seq![e@]),
        env_default is None ==> match config_default {
            Option::Some(c) => r matches Ok(v) && v.deep_view() == seq![c@],
            Option::None => r matches Err(m) && m@ == "No default model found"@,
        },
{
    match env_default {
        Some(e) => {
            let ghost ev = e@;
            let mut v: Vec<String> = Vec::new();
            v.push(e);
            proof {
                assert(v.deep_view() =~~= seq![ev]);
            }
            Ok(v)
        },
        None => match config_default {
            Some(c) => {
                let ghost cv = c@;
                let mut v: Vec<String> = Vec::new();
                v.push(c);
                proof {
                    assert(v.deep_view() =~~= seq![cv]);
                }
                Ok(v)
            },
            None => Err("No default model found".to_owned()),
        },
    }
}

} // verus!
