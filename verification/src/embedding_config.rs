//! The settings of the embedding and reranking endpoints, read from the values of
//! environment variables.
use crate::error::{around, wrap, Error, Fault};
use crate::hashing::{slug, stable_slug};
use crate::lines::{is_blank, trim, trimmed};
use crate::numbers::{decimal, number_of, parse_size, to_decimal};
use crate::paths::{join_path, joined_path};
use crate::text::{ascii_lowercase, ascii_lowered, copy, copy_opt, opt_text, quote, quoted, same};
use vstd::prelude::*;

verus! {

pub const DEFAULT_ENDPOINT: &'static str = "http://127.0.0.1:8082/v1/embeddings";

pub const DEFAULT_MODEL: &'static str = "Qwen/Qwen3-Embedding-8B-GGUF";

pub const DEFAULT_CHUNK_CHARS: usize = 2400;

pub const DEFAULT_CHUNK_OVERLAP: usize = 200;

pub const DEFAULT_BATCH_SIZE: usize = 16;

pub const DEFAULT_DOCUMENT_MAX_BYTES: usize = 52_428_800;

pub const DEFAULT_RERANKER_ENDPOINT: &'static str = "http://127.0.0.1:8083/v1/rerank";

pub const DEFAULT_RERANKER_MODEL: &'static str = "BAAI/bge-reranker-v2-m3";

pub const DEFAULT_RERANK_BATCH_SIZE: usize = 12;

/// How old an outdated index may grow before a search refreshes it, in seconds.
pub const DEFAULT_REFRESH_AFTER_SECS: usize = 21_600;

/// The values of the environment variables, each where it is set.
#[derive(Debug)]
pub struct Environment {
    /// `TURBOVAULT_EMBEDDING_ENDPOINT`
    pub endpoint: Option<String>,
    /// `TURBOVAULT_EMBEDDING_MODEL`
    pub model: Option<String>,
    /// `TURBOVAULT_EMBEDDING_API_KEY`
    pub api_key: Option<String>,
    /// `TURBOVAULT_EMBEDDING_CHUNK_CHARS`
    pub chunk_chars: Option<String>,
    /// `TURBOVAULT_EMBEDDING_CHUNK_OVERLAP`
    pub chunk_overlap: Option<String>,
    /// `TURBOVAULT_EMBEDDING_BATCH_SIZE`
    pub batch_size: Option<String>,
    /// `TURBOVAULT_DOCUMENT_INDEXING_ENABLED`
    pub document_indexing_enabled: Option<String>,
    /// `TURBOVAULT_DOCUMENT_MAX_BYTES`
    pub document_max_bytes: Option<String>,
    /// `TURBOVAULT_RERANKER_ENDPOINT`
    pub reranker_endpoint: Option<String>,
    /// `TURBOVAULT_RERANKER_MODEL`
    pub reranker_model: Option<String>,
    /// `TURBOVAULT_RERANKER_ENABLED`
    pub reranker_enabled: Option<String>,
    /// `TURBOVAULT_RERANKER_API_KEY`
    pub reranker_api_key: Option<String>,
    /// `TURBOVAULT_RERANKER_BATCH_SIZE`
    pub reranker_batch_size: Option<String>,
    /// `TURBOVAULT_EMBEDDING_REFRESH_AFTER_SECS`
    pub refresh_after_secs: Option<String>,
    /// `TURBOVAULT_EMBEDDING_INDEX_DIR`
    pub index_dir: Option<String>,
    /// Whether the platform is Windows.
    pub on_windows: bool,
    /// `XDG_CACHE_HOME`
    pub cache_home: Option<String>,
    /// `LOCALAPPDATA`
    pub local_app_data: Option<String>,
    /// `HOME`
    pub home: Option<String>,
}

/// A key, kept apart from the settings that callers read: `expose` gives it. What `Debug`
/// prints of it holds the key.
#[derive(Debug)]
pub struct Secret {
    value: Option<String>,
}

impl View for Secret {
    type V = Option<Seq<char>>;

    closed spec fn view(&self) -> Option<Seq<char>> {
        opt_text(self.value)
    }
}

impl Secret {
    /// Keeps a key, where there is one.
    pub fn new(value: Option<String>) -> (r: Secret)
        ensures
            r@ == opt_text(value),
    {
        Secret { value }
    }

    /// Whether there is a key.
    pub fn is_set(&self) -> (r: bool)
        ensures
            r == self@ is Some,
    {
        self.value.is_some()
    }

    /// The key.
    pub fn expose(&self) -> (r: Option<String>)
        ensures
            opt_text(r) == self@,
    {
        copy_opt(&self.value)
    }
}

/// The settings of the endpoints and of the index.
#[derive(Debug)]
pub struct EmbeddingConfig {
    pub endpoint: String,
    pub model: String,
    pub api_key_configured: bool,
    pub api_key: Secret,
    pub index_dir: String,
    pub chunk_chars: usize,
    pub chunk_overlap: usize,
    pub batch_size: usize,
    /// Whether PDF and Word attachments are indexed.
    pub document_indexing_enabled: bool,
    /// The largest attachment that is indexed, in bytes.
    pub document_max_bytes: u64,
    pub reranker_endpoint: String,
    pub reranker_model: String,
    pub reranker_enabled: bool,
    pub reranker_api_key_configured: bool,
    pub reranker_api_key: Secret,
    pub reranker_batch_size: usize,
    /// An outdated index is refreshed once it is at least this old, in seconds; never
    /// where this is zero.
    pub refresh_after_secs: u64,
}

// ---------------------------------------------------------------------------
// Single values
// ---------------------------------------------------------------------------

/// A value, or what stands for it where it is not set.
pub open spec fn or_default(value: Option<Seq<char>>, default: Seq<char>) -> Seq<char> {
    match value {
        Some(text) => text,
        None => default,
    }
}

/// A value that is not blank.
pub open spec fn non_blank(value: Option<Seq<char>>) -> Option<Seq<char>> {
    match value {
        Some(text) => if trim(text).len() == 0 {
            None
        } else {
            Some(text)
        },
        None => None,
    }
}

/// The number that a variable says, the default where it is not set.
pub open spec fn size_setting(
    name: Seq<char>,
    value: Option<Seq<char>>,
    default: usize,
) -> Result<usize, Fault> {
    match value {
        None => Ok(default),
        Some(text) => match number_of(text, usize::MAX as nat) {
            Some(n) => Ok(n as usize),
            None => Err(
                Fault::Config(
                    around(name, " must be a positive integer, got "@, quoted(text)),
                ),
            ),
        },
    }
}

/// The truth that a word says, if it says any.
pub open spec fn truth_of(text: Seq<char>) -> Option<bool> {
    let word = ascii_lowered(trim(text));
    if word == "1"@ || word == "true"@ || word == "yes"@ || word == "on"@ {
        Some(true)
    } else if word == "0"@ || word == "false"@ || word == "no"@ || word == "off"@ {
        Some(false)
    } else {
        None
    }
}

/// The truth that a variable says, the default where it is not set.
pub open spec fn bool_setting(name: Seq<char>, value: Option<Seq<char>>, default: bool) -> Result<
    bool,
    Fault,
> {
    match value {
        None => Ok(default),
        Some(text) => match truth_of(text) {
            Some(b) => Ok(b),
            None => Err(Fault::Config(around(name, " must be true or false, got "@, quoted(text)))),
        },
    }
}

/// Whether reranking is switched on: by a value that is not blank, not `0` and not
/// `false`; where nothing is said, by an endpoint that is not blank.
pub open spec fn reranker_on(value: Option<Seq<char>>, endpoint: Seq<char>) -> bool {
    match value {
        Some(text) => trim(text).len() > 0 && text != "0"@ && ascii_lowered(text) != "false"@,
        None => trim(endpoint).len() > 0,
    }
}

/// The key for reranking: its own where there is one, else the one for embedding.
pub open spec fn reranker_key(
    dedicated: Option<Seq<char>>,
    embedding: Option<Seq<char>>,
) -> Option<Seq<char>> {
    match dedicated {
        Some(key) => Some(key),
        None => embedding,
    }
}

/// The directory of all indexes unless told otherwise.
pub open spec fn default_root(
    on_windows: bool,
    cache_home: Option<Seq<char>>,
    local_app_data: Option<Seq<char>>,
    home: Option<Seq<char>>,
) -> Seq<char> {
    match (cache_home, local_app_data, home) {
        (Some(base), _, _) => joined_path(base, "turbovault/embeddings"@),
        (None, Some(base), _) if on_windows => joined_path(base, "turbovault/embeddings"@),
        (None, _, Some(base)) => joined_path(base, ".cache/turbovault/embeddings"@),
        _ => ".turbovault/embeddings"@,
    }
}

fn take_or(value: &Option<String>, default: &str) -> (r: String)
    ensures
        r@ == or_default(opt_text(*value), default@),
{
    match value {
        Some(text) => text.clone(),
        None => copy(default),
    }
}

fn take_non_blank(value: &Option<String>) -> (r: Option<String>)
    ensures
        opt_text(r) == non_blank(opt_text(*value)),
{
    match value {
        Some(text) => if is_blank(text.as_str()) {
            None
        } else {
            Some(text.clone())
        },
        None => None,
    }
}

/// The number that a variable says, the default where it is not set.
pub fn env_usize(name: &str, value: &Option<String>, default: usize) -> (r: Result<usize, Error>)
    ensures
        match (r, size_setting(name@, opt_text(*value), default)) {
            (Ok(n), Ok(m)) => n == m,
            (Err(error), Err(fault)) => error@ == fault,
            _ => false,
        },
{
    match value {
        None => Ok(default),
        Some(text) => match parse_size(text.as_str()) {
            Some(n) => Ok(n),
            None => Err(
                Error::Config(
                    wrap(
                        name,
                        " must be a positive integer, got ",
                        quote(text.as_str()).as_str(),
                    ),
                ),
            ),
        },
    }
}

/// The truth that a variable says, the default where it is not set.
pub fn env_bool(name: &str, value: &Option<String>, default: bool) -> (r: Result<bool, Error>)
    ensures
        match (r, bool_setting(name@, opt_text(*value), default)) {
            (Ok(a), Ok(b)) => a == b,
            (Err(error), Err(fault)) => error@ == fault,
            _ => false,
        },
{
    let text = match value {
        None => {
            return Ok(default);
        },
        Some(text) => text.as_str(),
    };
    let word = ascii_lowercase(trimmed(text).as_str());
    let word = word.as_str();
    if same(word, "1") || same(word, "true") || same(word, "yes") || same(word, "on") {
        Ok(true)
    } else if same(word, "0") || same(word, "false") || same(word, "no") || same(word, "off") {
        Ok(false)
    } else {
        Err(Error::Config(wrap(name, " must be true or false, got ", quote(text).as_str())))
    }
}

fn reranker_switch(value: &Option<String>, endpoint: &str) -> (r: bool)
    ensures
        r == reranker_on(opt_text(*value), endpoint@),
{
    match value {
        Some(text) => !is_blank(text.as_str()) && !same(text.as_str(), "0") && !same(
            ascii_lowercase(text.as_str()).as_str(),
            "false",
        ),
        None => !is_blank(endpoint),
    }
}

/// The key for reranking: its own where there is one, else the one for embedding.
pub fn select_reranker_api_key(
    dedicated_key: Option<String>,
    embedding_key: &Option<String>,
) -> (r: Option<String>)
    ensures
        opt_text(r) == reranker_key(opt_text(dedicated_key), opt_text(*embedding_key)),
{
    match dedicated_key {
        Some(key) => Some(key),
        None => copy_opt(embedding_key),
    }
}

/// The directory of all indexes unless told otherwise.
pub fn default_index_root(
    on_windows: bool,
    cache_home: &Option<String>,
    local_app_data: &Option<String>,
    home: &Option<String>,
) -> (r: String)
    ensures
        r@ == default_root(
            on_windows,
            opt_text(*cache_home),
            opt_text(*local_app_data),
            opt_text(*home),
        ),
{
    if let Some(base) = cache_home {
        return join_path(base.as_str(), "turbovault/embeddings");
    }
    if on_windows {
        if let Some(base) = local_app_data {
            return join_path(base.as_str(), "turbovault/embeddings");
        }
    }
    match home {
        Some(base) => join_path(base.as_str(), ".cache/turbovault/embeddings"),
        None => copy(".turbovault/embeddings"),
    }
}

// ---------------------------------------------------------------------------
// All of them
// ---------------------------------------------------------------------------

/// The values of all variables, as texts.
pub struct Values {
    pub endpoint: Option<Seq<char>>,
    pub model: Option<Seq<char>>,
    pub api_key: Option<Seq<char>>,
    pub chunk_chars: Option<Seq<char>>,
    pub chunk_overlap: Option<Seq<char>>,
    pub batch_size: Option<Seq<char>>,
    pub document_indexing_enabled: Option<Seq<char>>,
    pub document_max_bytes: Option<Seq<char>>,
    pub reranker_endpoint: Option<Seq<char>>,
    pub reranker_model: Option<Seq<char>>,
    pub reranker_enabled: Option<Seq<char>>,
    pub reranker_api_key: Option<Seq<char>>,
    pub reranker_batch_size: Option<Seq<char>>,
    pub refresh_after_secs: Option<Seq<char>>,
    pub index_dir: Option<Seq<char>>,
    pub on_windows: bool,
    pub cache_home: Option<Seq<char>>,
    pub local_app_data: Option<Seq<char>>,
    pub home: Option<Seq<char>>,
}

impl View for Environment {
    type V = Values;

    open spec fn view(&self) -> Values {
        Values {
            endpoint: opt_text(self.endpoint),
            model: opt_text(self.model),
            api_key: opt_text(self.api_key),
            chunk_chars: opt_text(self.chunk_chars),
            chunk_overlap: opt_text(self.chunk_overlap),
            batch_size: opt_text(self.batch_size),
            document_indexing_enabled: opt_text(self.document_indexing_enabled),
            document_max_bytes: opt_text(self.document_max_bytes),
            reranker_endpoint: opt_text(self.reranker_endpoint),
            reranker_model: opt_text(self.reranker_model),
            reranker_enabled: opt_text(self.reranker_enabled),
            reranker_api_key: opt_text(self.reranker_api_key),
            reranker_batch_size: opt_text(self.reranker_batch_size),
            refresh_after_secs: opt_text(self.refresh_after_secs),
            index_dir: opt_text(self.index_dir),
            on_windows: self.on_windows,
            cache_home: opt_text(self.cache_home),
            local_app_data: opt_text(self.local_app_data),
            home: opt_text(self.home),
        }
    }
}

/// The model of the settings.
pub struct Settings {
    pub endpoint: Seq<char>,
    pub model: Seq<char>,
    pub api_key: Option<Seq<char>>,
    pub index_dir: Seq<char>,
    pub chunk_chars: usize,
    pub chunk_overlap: usize,
    pub batch_size: usize,
    pub document_indexing_enabled: bool,
    pub document_max_bytes: u64,
    pub reranker_endpoint: Seq<char>,
    pub reranker_model: Seq<char>,
    pub reranker_enabled: bool,
    pub reranker_api_key: Option<Seq<char>>,
    pub reranker_batch_size: usize,
    pub refresh_after_secs: u64,
}

impl View for EmbeddingConfig {
    type V = Settings;

    open spec fn view(&self) -> Settings {
        Settings {
            endpoint: self.endpoint@,
            model: self.model@,
            api_key: self.api_key@,
            index_dir: self.index_dir@,
            chunk_chars: self.chunk_chars,
            chunk_overlap: self.chunk_overlap,
            batch_size: self.batch_size,
            document_indexing_enabled: self.document_indexing_enabled,
            document_max_bytes: self.document_max_bytes,
            reranker_endpoint: self.reranker_endpoint@,
            reranker_model: self.reranker_model@,
            reranker_enabled: self.reranker_enabled,
            reranker_api_key: self.reranker_api_key@,
            reranker_batch_size: self.reranker_batch_size,
            refresh_after_secs: self.refresh_after_secs,
        }
    }
}

/// What is said where neighbouring chunks would share whole chunks.
pub open spec fn overlap_too_large(overlap: usize, chars: usize) -> Seq<char> {
    "TURBOVAULT_EMBEDDING_CHUNK_OVERLAP ("@ + decimal(overlap as nat)
        + ") must be smaller than TURBOVAULT_EMBEDDING_CHUNK_CHARS ("@ + decimal(chars as nat)
        + ")"@
}

/// The numbers and truths among the values, or the first thing that is wrong with
/// them.
pub open spec fn checked_values(v: Values) -> Result<
    (usize, usize, usize, bool, usize, usize, usize),
    Fault,
> {
    match size_setting("TURBOVAULT_EMBEDDING_CHUNK_CHARS"@, v.chunk_chars, DEFAULT_CHUNK_CHARS) {
        Err(fault) => Err(fault),
        Ok(chars) => match size_setting(
            "TURBOVAULT_EMBEDDING_CHUNK_OVERLAP"@,
            v.chunk_overlap,
            DEFAULT_CHUNK_OVERLAP,
        ) {
            Err(fault) => Err(fault),
            Ok(overlap) => if overlap >= chars {
                Err(Fault::Config(overlap_too_large(overlap, chars)))
            } else {
                match size_setting(
                    "TURBOVAULT_EMBEDDING_BATCH_SIZE"@,
                    v.batch_size,
                    DEFAULT_BATCH_SIZE,
                ) {
                    Err(fault) => Err(fault),
                    Ok(batch) => if batch == 0 {
                        Err(
                            Fault::Config(
                                "TURBOVAULT_EMBEDDING_BATCH_SIZE must be greater than zero"@,
                            ),
                        )
                    } else {
                        checked_documents(v, chars, overlap, batch)
                    },
                }
            },
        },
    }
}

/// The rest of the numbers and truths.
pub open spec fn checked_documents(v: Values, chars: usize, overlap: usize, batch: usize) -> Result<
    (usize, usize, usize, bool, usize, usize, usize),
    Fault,
> {
    match bool_setting(
        "TURBOVAULT_DOCUMENT_INDEXING_ENABLED"@,
        v.document_indexing_enabled,
        false,
    ) {
        Err(fault) => Err(fault),
        Ok(documents) => match size_setting(
            "TURBOVAULT_DOCUMENT_MAX_BYTES"@,
            v.document_max_bytes,
            DEFAULT_DOCUMENT_MAX_BYTES,
        ) {
            Err(fault) => Err(fault),
            Ok(max_bytes) => if max_bytes == 0 {
                Err(Fault::Config("TURBOVAULT_DOCUMENT_MAX_BYTES must be greater than zero"@))
            } else {
                match size_setting(
                    "TURBOVAULT_RERANKER_BATCH_SIZE"@,
                    v.reranker_batch_size,
                    DEFAULT_RERANK_BATCH_SIZE,
                ) {
                    Err(fault) => Err(fault),
                    Ok(rerank_batch) => match size_setting(
                        "TURBOVAULT_EMBEDDING_REFRESH_AFTER_SECS"@,
                        v.refresh_after_secs,
                        DEFAULT_REFRESH_AFTER_SECS,
                    ) {
                        Err(fault) => Err(fault),
                        Ok(refresh) => Ok(
                            (chars, overlap, batch, documents, max_bytes, rerank_batch, refresh),
                        ),
                    },
                }
            },
        },
    }
}

/// The directory of the index of a vault: one for each vault and model.
pub open spec fn index_place(v: Values, vault_path: Seq<char>) -> Seq<char> {
    joined_path(
        match v.index_dir {
            Some(dir) => dir,
            None => default_root(v.on_windows, v.cache_home, v.local_app_data, v.home),
        },
        slug(vault_path) + "-"@ + slug(or_default(v.model, DEFAULT_MODEL@)),
    )
}

/// The settings that the values say, or the first thing that is wrong with them.
pub open spec fn settings_of(v: Values, vault_path: Seq<char>) -> Result<Settings, Fault> {
    match checked_values(v) {
        Err(fault) => Err(fault),
        Ok((chars, overlap, batch, documents, max_bytes, rerank_batch, refresh)) => Ok(
            Settings {
                endpoint: or_default(v.endpoint, DEFAULT_ENDPOINT@),
                model: or_default(v.model, DEFAULT_MODEL@),
                api_key: non_blank(v.api_key),
                index_dir: index_place(v, vault_path),
                chunk_chars: chars,
                chunk_overlap: overlap,
                batch_size: batch,
                document_indexing_enabled: documents,
                document_max_bytes: max_bytes as u64,
                reranker_endpoint: or_default(v.reranker_endpoint, DEFAULT_RERANKER_ENDPOINT@),
                reranker_model: or_default(v.reranker_model, DEFAULT_RERANKER_MODEL@),
                reranker_enabled: reranker_on(
                    v.reranker_enabled,
                    or_default(v.reranker_endpoint, DEFAULT_RERANKER_ENDPOINT@),
                ),
                reranker_api_key: reranker_key(non_blank(v.reranker_api_key), non_blank(v.api_key)),
                reranker_batch_size: rerank_batch,
                refresh_after_secs: refresh as u64,
            },
        ),
    }
}

impl EmbeddingConfig {
    /// What always holds of settings that were read: chunks overlap by less than
    /// their size, batches are not empty, and what is said of the keys is true.
    pub open spec fn wf(&self) -> bool {
        &&& self.chunk_overlap < self.chunk_chars
        &&& self.batch_size > 0
        &&& self.document_max_bytes > 0
        &&& self.api_key_configured == self.api_key@ is Some
        &&& self.reranker_api_key_configured == self.reranker_api_key@ is Some
    }

    /// The settings of a vault.
    pub fn from_environment(vault_path: &str, env: &Environment) -> (r: Result<
        EmbeddingConfig,
        Error,
    >)
        ensures
            match (r, settings_of(env@, vault_path@)) {
                (Ok(config), Ok(settings)) => config@ == settings && config.wf(),
                (Err(error), Err(fault)) => error@ == fault,
                _ => false,
            },
    {
        let endpoint = take_or(&env.endpoint, DEFAULT_ENDPOINT);
        let model = take_or(&env.model, DEFAULT_MODEL);
        let api_key = take_non_blank(&env.api_key);
        let chunk_chars: usize = match env_usize(
            "TURBOVAULT_EMBEDDING_CHUNK_CHARS",
            &env.chunk_chars,
            DEFAULT_CHUNK_CHARS,
        ) {
            Ok(n) => n,
            Err(error) => {
                return Err(error);
            },
        };
        let chunk_overlap: usize = match env_usize(
            "TURBOVAULT_EMBEDDING_CHUNK_OVERLAP",
            &env.chunk_overlap,
            DEFAULT_CHUNK_OVERLAP,
        ) {
            Ok(n) => n,
            Err(error) => {
                return Err(error);
            },
        };
        if chunk_overlap >= chunk_chars {
            return Err(Error::Config(overlap_words(chunk_overlap, chunk_chars)));
        }
        let batch_size: usize = match env_usize(
            "TURBOVAULT_EMBEDDING_BATCH_SIZE",
            &env.batch_size,
            DEFAULT_BATCH_SIZE,
        ) {
            Ok(n) => n,
            Err(error) => {
                return Err(error);
            },
        };
        if batch_size == 0 {
            return Err(
                Error::Config(copy("TURBOVAULT_EMBEDDING_BATCH_SIZE must be greater than zero")),
            );
        }
        let document_indexing_enabled: bool = match env_bool(
            "TURBOVAULT_DOCUMENT_INDEXING_ENABLED",
            &env.document_indexing_enabled,
            false,
        ) {
            Ok(b) => b,
            Err(error) => {
                return Err(error);
            },
        };
        let document_max_bytes: usize = match env_usize(
            "TURBOVAULT_DOCUMENT_MAX_BYTES",
            &env.document_max_bytes,
            DEFAULT_DOCUMENT_MAX_BYTES,
        ) {
            Ok(n) => n,
            Err(error) => {
                return Err(error);
            },
        };
        if document_max_bytes == 0 {
            return Err(
                Error::Config(copy("TURBOVAULT_DOCUMENT_MAX_BYTES must be greater than zero")),
            );
        }
        let reranker_endpoint = take_or(&env.reranker_endpoint, DEFAULT_RERANKER_ENDPOINT);
        let reranker_model = take_or(&env.reranker_model, DEFAULT_RERANKER_MODEL);
        let reranker_enabled: bool = reranker_switch(
            &env.reranker_enabled,
            reranker_endpoint.as_str(),
        );
        let reranker_api_key = select_reranker_api_key(
            take_non_blank(&env.reranker_api_key),
            &api_key,
        );
        let reranker_batch_size: usize = match env_usize(
            "TURBOVAULT_RERANKER_BATCH_SIZE",
            &env.reranker_batch_size,
            DEFAULT_RERANK_BATCH_SIZE,
        ) {
            Ok(n) => n,
            Err(error) => {
                return Err(error);
            },
        };
        let refresh_after: usize = match env_usize(
            "TURBOVAULT_EMBEDDING_REFRESH_AFTER_SECS",
            &env.refresh_after_secs,
            DEFAULT_REFRESH_AFTER_SECS,
        ) {
            Ok(n) => n,
            Err(error) => {
                return Err(error);
            },
        };
        let root = match &env.index_dir {
            Some(dir) => dir.clone(),
            None => default_index_root(
                env.on_windows,
                &env.cache_home,
                &env.local_app_data,
                &env.home,
            ),
        };
        let place = wrap(
            stable_slug(vault_path).as_str(),
            "-",
            stable_slug(model.as_str()).as_str(),
        );
        let index_dir = join_path(root.as_str(), place.as_str());
        Ok(
            EmbeddingConfig {
                endpoint,
                model,
                api_key_configured: api_key.is_some(),
                api_key: Secret::new(api_key),
                index_dir,
                chunk_chars,
                chunk_overlap,
                batch_size,
                document_indexing_enabled,
                document_max_bytes: document_max_bytes as u64,
                reranker_endpoint,
                reranker_model,
                reranker_enabled,
                reranker_api_key_configured: reranker_api_key.is_some(),
                reranker_api_key: Secret::new(reranker_api_key),
                reranker_batch_size,
                refresh_after_secs: refresh_after as u64,
            },
        )
    }
}

fn overlap_words(overlap: usize, chars: usize) -> (out: String)
    ensures
        out@ == overlap_too_large(overlap, chars),
{
    let mut out: String = String::new();
    out.append("TURBOVAULT_EMBEDDING_CHUNK_OVERLAP (");
    out.append(to_decimal(overlap as u64).as_str());
    out.append(") must be smaller than TURBOVAULT_EMBEDDING_CHUNK_CHARS (");
    out.append(to_decimal(chars as u64).as_str());
    out.append(")");
    assert(out@ =~= overlap_too_large(overlap, chars));
    out
}

/// One key serves both endpoints unless reranking has its own.
pub proof fn lemma_key_is_shared_unless_dedicated(v: Values, vault_path: Seq<char>)
    requires
        settings_of(v, vault_path) is Ok,
    ensures
        non_blank(v.reranker_api_key) is None ==> settings_of(
            v,
            vault_path,
        )->Ok_0.reranker_api_key == settings_of(v, vault_path)->Ok_0.api_key,
        non_blank(v.reranker_api_key) is Some ==> settings_of(
            v,
            vault_path,
        )->Ok_0.reranker_api_key == v.reranker_api_key,
{
}

} // verus!
