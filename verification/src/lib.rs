//! Crypto-conditions: threshold, preimage, secp256k1 and eval conditions,
//! their fingerprints, costs and DER encodings.

pub mod internal;
pub mod secp;
pub mod order;
pub mod condition;
pub mod laws;
pub mod js_form;

pub use condition::{Condition, ConditionType};
pub use secp::{Message, PublicKey, SecpError, SecretKey, Signature};
