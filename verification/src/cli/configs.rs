//! Configurations of the operations: where their streams come from.
use vstd::prelude::*;

use crate::cli::ImgSrc;

verus! {

/// Why an operation cannot be configured.
#[derive(Debug, Clone, Copy, PartialEq, Eq, Structural)]
pub enum ConfigError {
    /// Compiling from an image query is not supported.
    QueryUnsupported,
    /// A key file must be given.
    KeyFileMandatory,
}

impl ConfigError {
    /// Gets the error's message.
    pub fn message(&self) -> (r: &'static str)
        ensures
            *self == ConfigError::QueryUnsupported ==> r@ == "Query-based compiling is not supported yet."@,
            *self == ConfigError::KeyFileMandatory ==> r@ == "Key file is mandatory for now."@,
    {
        match self {
            ConfigError::QueryUnsupported => "Query-based compiling is not supported yet.",
            ConfigError::KeyFileMandatory => "Key file is mandatory for now.",
        }
    }
}

/// Configuration of a compile operation: a source image given by its path,
/// the key stored in a file of its own.
#[derive(Debug, PartialEq, Eq)]
pub struct PathWithKey {
    /// Path to the source image.
    pub in_img_path: String,
    /// Path to store the key to.
    pub out_key_path: String,
}

/// Selects the configuration of a compile operation (see `apply_compile`).
///
/// * `img_src` - Image source.
/// * `key_file` - Optional path to store key to.
///
/// Returns the configuration, or the reason none applies.
pub fn select_compile(img_src: &ImgSrc, key_file: &Option<String>) -> (r: Result<PathWithKey, ConfigError>)
    ensures
        img_src is Query ==> r == Err::<PathWithKey, ConfigError>(ConfigError::QueryUnsupported),
        img_src is Path && key_file is None ==> r == Err::<PathWithKey, ConfigError>(
            ConfigError::KeyFileMandatory,
        ),
        img_src matches ImgSrc::Path(p) ==> (key_file matches Some(k) ==> (r matches Ok(c)
            && c.in_img_path@ == p@ && c.out_key_path@ == k@)),
{
    match (img_src, key_file) {
        (ImgSrc::Query(_), None) => Err(ConfigError::QueryUnsupported),
        (ImgSrc::Query(_), Some(_)) => Err(ConfigError::QueryUnsupported),
        (ImgSrc::Path(_), None) => Err(ConfigError::KeyFileMandatory),
        (ImgSrc::Path(in_img_path), Some(out_key_path)) => Ok(
            PathWithKey { in_img_path: in_img_path.clone(), out_key_path: out_key_path.clone() },
        ),
    }
}

/// Selects the key file of an extract operation (see `apply_extract`).
///
/// * `key_file` - Optional path to read key from.
///
/// Returns the key's path, or the reason none applies.
pub fn select_extract(key_file: &Option<String>) -> (r: Result<String, ConfigError>)
    ensures
        key_file is None ==> r == Err::<String, ConfigError>(ConfigError::KeyFileMandatory),
        key_file matches Some(k) ==> (r matches Ok(p) && p@ == k@),
{
    match key_file {
        Some(in_key_path) => Ok(in_key_path.clone()),
        None => Err(ConfigError::KeyFileMandatory),
    }
}

} // verus!
