//! The engine's error taxonomy. Parsing problems inside a note never
//! appear here: a malformed metadata block reads as "no metadata" and the
//! caller decides. These errors are for targets that cannot be worked on
//! at all.

use vstd::prelude::*;
use vstd::string::StringExecFns;

verus! {

/// A rejected operation, with the offending path or detail.
#[derive(Debug)]
pub enum SproutError {
    FileNotFound(String),
    OutsideVault(String),
    NoFrontmatter(String),
    VaultNotFound(String),
    AlreadyInitialized(String),
    ParseError(String),
    InvalidTitle(String),
}

impl SproutError {
    /// The stable machine-readable code of each variant.
    pub fn error_code(&self) -> (r: &'static str)
        ensures
            match self {
                SproutError::FileNotFound(_) => r@ == "file_not_found"@,
                SproutError::OutsideVault(_) => r@ == "outside_vault"@,
                SproutError::NoFrontmatter(_) => r@ == "no_frontmatter"@,
                SproutError::VaultNotFound(_) => r@ == "vault_not_found"@,
                SproutError::AlreadyInitialized(_) => r@ == "already_initialized"@,
                SproutError::ParseError(_) => r@ == "parse_error"@,
                SproutError::InvalidTitle(_) => r@ == "invalid_title"@,
            },
    {
        match self {
            SproutError::FileNotFound(_) => "file_not_found",
            SproutError::OutsideVault(_) => "outside_vault",
            SproutError::NoFrontmatter(_) => "no_frontmatter",
            SproutError::VaultNotFound(_) => "vault_not_found",
            SproutError::AlreadyInitialized(_) => "already_initialized",
            SproutError::ParseError(_) => "parse_error",
            SproutError::InvalidTitle(_) => "invalid_title",
        }
    }

    /// The human-readable message of each variant.
    pub fn message(&self) -> (r: String)
        ensures
            match self {
                SproutError::FileNotFound(p) => r@ == p@ + ": file not found"@,
                SproutError::OutsideVault(p) => r@ == p@ + ": file is outside vault"@,
                SproutError::NoFrontmatter(p) => r@ == p@
                    + ": missing required sprout frontmatter fields"@,
                SproutError::VaultNotFound(p) => r@ == "vault not found: "@ + p@,
                SproutError::AlreadyInitialized(p) => r@ == p@
                    + ": already initialized with all sprout fields"@,
                SproutError::ParseError(p) => r@ == "parse error: "@ + p@,
                SproutError::InvalidTitle(p) => r@ == p@ + ": invalid note title"@,
            },
    {
        match self {
            SproutError::FileNotFound(p) => {
                let mut m = p.clone();
                m.append(": file not found");
                m
            },
            SproutError::OutsideVault(p) => {
                let mut m = p.clone();
                m.append(": file is outside vault");
                m
            },
            SproutError::NoFrontmatter(p) => {
                let mut m = p.clone();
                m.append(": missing required sprout frontmatter fields");
                m
            },
            SproutError::VaultNotFound(p) => {
                let mut m = "vault not found: ".to_owned();
                m.append(p.as_str());
                m
            },
            SproutError::AlreadyInitialized(p) => {
                let mut m = p.clone();
                m.append(": already initialized with all sprout fields");
                m
            },
            SproutError::ParseError(p) => {
                let mut m = "parse error: ".to_owned();
                m.append(p.as_str());
                m
            },
            SproutError::InvalidTitle(p) => {
                let mut m = p.clone();
                m.append(": invalid note title");
                m
            },
        }
    }
}

} // verus!
