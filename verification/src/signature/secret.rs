//! Secrets that are given in a configuration or in the environment.

use vstd::prelude::*;
use vstd::utf8::encode_utf8;

use crate::environment::Environment;
use crate::text::{bytes_of_text, concat, concat3};

verus! {

/// Where a secret comes from. Exactly one of the two has to be set.
#[derive(Debug)]
pub struct SecretFields {
    /// The secret itself.
    pub secret: Option<String>,
    /// The environment variable that holds it.
    pub secret_env_var: Option<String>,
}

/// Why a secret cannot be had.
#[derive(Debug)]
pub enum SecretError {
    /// The environment variable cannot be read, for this reason.
    NotSet { var: String, reason: String },
    /// Both places are given.
    Both,
    /// No place is given.
    Neither,
}

/// An error as mathematical data.
pub enum SecretFailure {
    NotSet(Seq<char>, Seq<char>),
    Both,
    Neither,
}

impl SecretError {
    pub open spec fn model(self) -> SecretFailure {
        match self {
            SecretError::NotSet { var, reason } => SecretFailure::NotSet(var@, reason@),
            SecretError::Both => SecretFailure::Both,
            SecretError::Neither => SecretFailure::Neither,
        }
    }

    pub open spec fn text(self, filter_name: Seq<char>) -> Seq<char> {
        filter_name + match self {
            SecretError::NotSet { var, reason } => ": environment variable '"@ + var@ + "' not set: "@
                + reason@,
            SecretError::Both => ": must set exactly one of 'secret' or 'secret_env_var'"@,
            SecretError::Neither => ": must set either 'secret' or 'secret_env_var'"@,
        }
    }

    /// The message of this error in the filter `filter_name`.
    pub fn message(&self, filter_name: &str) -> (r: String)
        ensures
            r@ == self.text(filter_name@),
    {
        match self {
            SecretError::NotSet { var, reason } => {
                let mut tail = concat3(": environment variable '", var.as_str(), "' not set: ");
                tail.append(reason.as_str());
                concat(filter_name, tail.as_str())
            },
            SecretError::Both => concat(
                filter_name,
                ": must set exactly one of 'secret' or 'secret_env_var'",
            ),
            SecretError::Neither => concat(
                filter_name,
                ": must set either 'secret' or 'secret_env_var'",
            ),
        }
    }
}

/// The secret, or why it cannot be had.
pub open spec fn secret_of(fields: SecretFields, env: Environment) -> Result<Seq<u8>, SecretFailure> {
    match (fields.secret, fields.secret_env_var) {
        (Some(value), None) => Ok(encode_utf8(value@)),
        (None, Some(var)) => match env.value(var@) {
            Ok(value) => Ok(encode_utf8(value)),
            Err(reason) => Err(SecretFailure::NotSet(var@, reason)),
        },
        (Some(_), Some(_)) => Err(SecretFailure::Both),
        (None, None) => Err(SecretFailure::Neither),
    }
}

/// A secret or an error as mathematical data.
pub open spec fn secret_model(r: Result<Vec<u8>, SecretError>) -> Result<Seq<u8>, SecretFailure> {
    match r {
        Ok(bytes) => Ok(bytes@),
        Err(err) => Err(err.model()),
    }
}

/// Get the secret.
pub fn resolve_secret(fields: &SecretFields, env: &Environment) -> (r: Result<Vec<u8>, SecretError>)
    ensures
        secret_model(r) == secret_of(*fields, *env),
{
    match (&fields.secret, &fields.secret_env_var) {
        (Some(value), None) => Ok(bytes_of_text(value.as_str())),
        (None, Some(var)) => match env.var(var.as_str()) {
            Ok(value) => Ok(bytes_of_text(value.as_str())),
            Err(reason) => Err(SecretError::NotSet { var: var.clone(), reason }),
        },
        (Some(_), Some(_)) => Err(SecretError::Both),
        (None, None) => Err(SecretError::Neither),
    }
}

} // verus!
