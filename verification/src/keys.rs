//! Content keys: the named locations of the data model, each a SHA-256
//! digest of a domain string.
use vstd::prelude::*;
use vstd::utf8::encode_utf8;
use crate::crypto::{hash_key, sha256_of};

verus! {

/// The key of the domain string `s`: the digest of its text.
pub open spec fn key_of_chars(s: Seq<char>) -> Seq<u8> {
    sha256_of(encode_utf8(s))
}

/// Digest the bytes of a whole domain string.
fn key_of(s: &str) -> (r: [u8; 32])
    ensures
        r@ == key_of_chars(s@),
{
    hash_key(s.as_bytes())
}

/// Digest a domain string composed of a prefix, a caller part and a
/// suffix.
fn key_of_composed(prefix: &str, middle: &str, suffix: &str) -> (r: [u8; 32])
    ensures
        r@ == key_of_chars(prefix@ + middle@ + suffix@),
{
    let mut s = String::new();
    s.append(prefix);
    s.append(middle);
    s.append(suffix);
    hash_key(s.as_str().as_bytes())
}

/// Builds the well-known DHT keys.
pub struct DHTKeyBuilder;

impl DHTKeyBuilder {
    /// Key of the list of all threads.
    pub fn global_threads() -> (r: [u8; 32])
        ensures
            r@ == key_of_chars("global:threads"@),
    {
        key_of("global:threads")
    }

    /// Key of the most popular threads.
    pub fn global_popular() -> (r: [u8; 32])
        ensures
            r@ == key_of_chars("global:popular"@),
    {
        key_of("global:popular")
    }

    /// Key of the most recent messages.
    pub fn global_recent() -> (r: [u8; 32])
        ensures
            r@ == key_of_chars("global:recent"@),
    {
        key_of("global:recent")
    }

    /// Key of the list of active seed peers.
    pub fn global_seeds() -> (r: [u8; 32])
        ensures
            r@ == key_of_chars("global:seeds"@),
    {
        key_of("global:seeds")
    }

    /// Key of a thread's metadata.
    pub fn thread_meta(thread_id: &str) -> (r: [u8; 32])
        ensures
            r@ == key_of_chars("thread:"@ + thread_id@ + ":meta"@),
    {
        key_of_composed("thread:", thread_id, ":meta")
    }

    /// Key of a thread's chronological message index.
    pub fn thread_index(thread_id: &str) -> (r: [u8; 32])
        ensures
            r@ == key_of_chars("thread:"@ + thread_id@ + ":index"@),
    {
        key_of_composed("thread:", thread_id, ":index")
    }

    /// Key of a thread's popular messages.
    pub fn thread_popular(thread_id: &str) -> (r: [u8; 32])
        ensures
            r@ == key_of_chars("thread:"@ + thread_id@ + ":popular"@),
    {
        key_of_composed("thread:", thread_id, ":popular")
    }

    /// Key of a thread's statistics.
    pub fn thread_stats(thread_id: &str) -> (r: [u8; 32])
        ensures
            r@ == key_of_chars("thread:"@ + thread_id@ + ":stats"@),
    {
        key_of_composed("thread:", thread_id, ":stats")
    }

    /// Key of one message.
    pub fn message(message_hash: &str) -> (r: [u8; 32])
        ensures
            r@ == key_of_chars("msg:"@ + message_hash@ + ""@),
    {
        key_of_composed("msg:", message_hash, "")
    }

    /// Key of a message's replies and quotes.
    pub fn message_refs(message_hash: &str) -> (r: [u8; 32])
        ensures
            r@ == key_of_chars("msg:"@ + message_hash@ + ":refs"@),
    {
        key_of_composed("msg:", message_hash, ":refs")
    }

    /// Key of a message's votes and reactions.
    pub fn message_votes(message_hash: &str) -> (r: [u8; 32])
        ensures
            r@ == key_of_chars("msg:"@ + message_hash@ + ":votes"@),
    {
        key_of_composed("msg:", message_hash, ":votes")
    }

    /// Key of a user's profile.
    pub fn user_profile(pubkey: &str) -> (r: [u8; 32])
        ensures
            r@ == key_of_chars("user:"@ + pubkey@ + ":profile"@),
    {
        key_of_composed("user:", pubkey, ":profile")
    }

    /// Key of a user's threads.
    pub fn user_threads(pubkey: &str) -> (r: [u8; 32])
        ensures
            r@ == key_of_chars("user:"@ + pubkey@ + ":threads"@),
    {
        key_of_composed("user:", pubkey, ":threads")
    }

    /// Key of a user's reputation record.
    pub fn user_reputation(pubkey: &str) -> (r: [u8; 32])
        ensures
            r@ == key_of_chars("user:"@ + pubkey@ + ":reputation"@),
    {
        key_of_composed("user:", pubkey, ":reputation")
    }

    /// Read a key's provenance back; keys are digests, so nothing can be
    /// read back.
    pub fn parse_key(_key: &[u8]) -> (r: Option<Vec<(String, String)>>)
        ensures
            r is None,
    {
        None
    }
}

/// A façade over the key builder.
pub struct KeyManager {
}

impl KeyManager {
    /// A key manager.
    pub fn new() -> (r: KeyManager) {
        KeyManager {  }
    }

    /// Key of a thread's metadata.
    pub fn get_thread_meta_key(&self, thread_id: &str) -> (r: [u8; 32])
        ensures
            r@ == key_of_chars("thread:"@ + thread_id@ + ":meta"@),
    {
        DHTKeyBuilder::thread_meta(thread_id)
    }

    /// Key of one message.
    pub fn get_message_key(&self, message_hash: &str) -> (r: [u8; 32])
        ensures
            r@ == key_of_chars("msg:"@ + message_hash@ + ""@),
    {
        DHTKeyBuilder::message(message_hash)
    }

    /// Key of the list of all threads.
    pub fn get_global_threads_key(&self) -> (r: [u8; 32])
        ensures
            r@ == key_of_chars("global:threads"@),
    {
        DHTKeyBuilder::global_threads()
    }

    /// Key of the most popular threads.
    pub fn get_global_popular_key(&self) -> (r: [u8; 32])
        ensures
            r@ == key_of_chars("global:popular"@),
    {
        DHTKeyBuilder::global_popular()
    }
}

} // verus!
