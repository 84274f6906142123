//! Node keys: a Schnorr key pair over Ristretto (schnorrkel), a signature on
//! a fixed message, both written as byte lists for the key files, and the
//! check of such a pair.
use vstd::prelude::*;
use vstd::utf8::encode_utf8;
use rand::rngs::OsRng;
use schnorrkel::{signing_context, Keypair, PublicKey, Signature, SignatureError};
use crate::text::{debug_bytes, debug_bytes_chars, string_of};

verus! {

#[verifier::external_type_specification]
#[verifier::external_body]
pub struct ExKeypair(schnorrkel::Keypair);

#[verifier::external_type_specification]
#[verifier::external_body]
pub struct ExPublicKey(schnorrkel::PublicKey);

#[verifier::external_type_specification]
#[verifier::external_body]
pub struct ExSignature(schnorrkel::Signature);

#[verifier::external_type_specification]
#[verifier::external_body]
pub struct ExSignatureError(schnorrkel::SignatureError);

#[verifier::external_type_specification]
#[verifier::external_body]
pub struct ExJsonError(serde_json::Error);

/// Whether `PublicKey::from_bytes` accepts the bytes.
pub uninterp spec fn public_key_decodes(bytes: Seq<u8>) -> bool;

/// Whether `Signature::from_bytes` accepts the bytes.
pub uninterp spec fn signature_decodes(bytes: Seq<u8>) -> bool;

/// What `serde_json::from_str::<Vec<u8>>` reads from a text, where it reads.
pub uninterp spec fn json_bytes(s: Seq<char>) -> Option<Seq<u8>>;

/// Whether `PublicKey::verify` accepts, on `message` in the signing context
/// `context`, the signature with these bytes under the public key with these
/// bytes; a function of the bytes alone.
pub uninterp spec fn schnorr_verifies(pk: Seq<u8>, sig: Seq<u8>, context: Seq<u8>, message: Seq<u8>) -> bool;

/// The signing context of the node keys' signature: `signature context`.
pub open spec fn key_context() -> Seq<u8> {
    encode_utf8("signature context"@)
}

/// The message that a node's key signs: `zake kal`.
pub open spec fn key_message() -> Seq<u8> {
    encode_utf8("zake kal"@)
}

/// `Keypair::generate_with(OsRng)`: a fresh random key pair; nothing is
/// known of it.
#[verifier::external_body]
fn generate_keypair() -> (k: Keypair) {
    Keypair::generate_with(OsRng)
}

/// `Keypair::sign` on `message` in the signing context `context`, returned
/// with the pair's public key as `PublicKey::to_bytes` and
/// `Signature::to_bytes` write them. Signing is randomized, so the signature
/// bytes are not named; what holds of every outcome is stated: both decode
/// (`from_bytes` takes back what `to_bytes` wrote), and the signature
/// verifies under the key on that message in that context, as a signature
/// by the pair's secret key does.
#[verifier::external_body]
fn sign_message(k: &Keypair, context: &[u8], message: &[u8]) -> (r: ([u8; 32], [u8; 64]))
    ensures
        public_key_decodes(r.0@),
        signature_decodes(r.1@),
        schnorr_verifies(r.0@, r.1@, context@, message@),
{
    let s = k.sign(signing_context(context).bytes(message));
    (k.public.to_bytes(), s.to_bytes())
}

/// `PublicKey::to_bytes` of the pair's public half: the compressed point,
/// which `PublicKey::from_bytes` takes back.
#[verifier::external_body]
fn public_key_bytes(k: &Keypair) -> (b: [u8; 32])
    ensures
        public_key_decodes(b@),
{
    k.public.to_bytes()
}

/// `PublicKey::from_bytes`: succeeds exactly on bytes that decode, which
/// are 32 bytes long.
#[verifier::external_body]
fn public_key_from(b: &[u8]) -> (r: Result<PublicKey, SignatureError>)
    ensures
        r is Ok <==> public_key_decodes(b@),
        r is Ok ==> b@.len() == 32,
{
    PublicKey::from_bytes(b)
}

/// `Signature::from_bytes`: succeeds exactly on bytes that decode, which are
/// 64 bytes long with the marker bit (the top bit of the last byte) set.
#[verifier::external_body]
fn signature_from(b: &[u8]) -> (r: Result<Signature, SignatureError>)
    ensures
        r is Ok <==> signature_decodes(b@),
        r is Ok ==> b@.len() == 64 && b@[63] >= 128,
{
    Signature::from_bytes(b)
}

/// `PublicKey::verify` of a signature on `message` in the signing context
/// `context`, as `is_ok()`. The key and the signature are given as bytes
/// that decode, and are converted with `PublicKey::from_bytes` and
/// `Signature::from_bytes` (which succeed on them); the verdict is named
/// over those bytes, the context and the message.
#[verifier::external_body]
fn verify_message(pk: &[u8], sig: &[u8], context: &[u8], message: &[u8]) -> (ok: bool)
    requires
        public_key_decodes(pk@),
        signature_decodes(sig@),
    ensures
        ok == schnorr_verifies(pk@, sig@, context@, message@),
{
    let public_key = PublicKey::from_bytes(pk).unwrap();
    let signature = Signature::from_bytes(sig).unwrap();
    public_key.verify(signing_context(context).bytes(message), &signature).is_ok()
}

/// `serde_json::from_str::<Vec<u8>>`: its reading is named; a byte list as
/// `{:?}` writes it, `[1, 2, 3]`, is JSON and reads as those bytes.
#[verifier::external_body]
fn json_u8_list(s: &str) -> (r: Result<Vec<u8>, serde_json::Error>)
    ensures
        r is Ok <==> json_bytes(s@) is Some,
        r matches Ok(v) ==> json_bytes(s@) == Some(v@),
        forall|b: Seq<u8>| #![trigger debug_bytes(b)] s@ == debug_bytes(b) ==> r is Ok && r->Ok_0@ == b,
{
    serde_json::from_str::<Vec<u8>>(s)
}

/// Bytes as the key files hold them: the byte list `[1, 2, 3]` followed by
/// `//`.
pub open spec fn key_text(b: Seq<u8>) -> Seq<char> {
    debug_bytes(b) + seq!['/', '/']
}

/// Writes bytes as the key files hold them.
pub fn key_text_of(bytes: &[u8]) -> (r: String)
    ensures
        r@ == key_text(bytes@),
{
    let mut v: Vec<u8> = Vec::new();
    let mut i: usize = 0;
    while i < bytes.len()
        invariant
            i <= bytes@.len(),
            v@ == bytes@.subrange(0, i as int),
        decreases bytes.len() - i,
    {
        v.push(bytes[i]);
        i = i + 1;
    }
    assert(v@ =~= bytes@);
    let mut text = debug_bytes_chars(&v);
    text.push('/');
    text.push('/');
    string_of(&text)
}

/// The keys that were made: a public key and a signature on the fixed
/// message that verifies under it, the texts of the public key file and of
/// the signature file, and the two as bytes.
pub open spec fn created_keys(r: (String, String, [u8; 32], [u8; 64])) -> bool {
    exists|pk: Seq<u8>, sig: Seq<u8>|
        {
            &&& pk.len() == 32
            &&& sig.len() == 64
            &&& public_key_decodes(pk)
            &&& signature_decodes(sig)
            &&& schnorr_verifies(pk, sig, key_context(), key_message())
            &&& r.0@ == key_text(pk)
            &&& r.1@ == key_text(sig)
            &&& r.2@ == pk
            &&& r.3@ == sig
        }
}

/// Creates the node's keys: a fresh key pair and its signature on the fixed
/// message, returned as the texts of the public key file and of the
/// signature file, with the key and the signature as bytes.
pub fn _create_keys_schnorrkel() -> (r: (String, String, [u8; 32], [u8; 64]))
    ensures
        created_keys(r),
{
    let keypair = generate_keypair();
    let context = "signature context".as_bytes();
    let message = "zake kal".as_bytes();
    assert(context@ == key_context() && message@ == key_message());
    let (pk_bytes, sig_bytes) = sign_message(&keypair, context, message);
    let pubkeystr = key_text_of(&pk_bytes);
    let signstr = key_text_of(&sig_bytes);
    let r = (pubkeystr, signstr, pk_bytes, sig_bytes);
    assert(r.2@ == pk_bytes@ && r.3@ == sig_bytes@);
    r
}

/// The node's key generation.
pub fn create_keys() -> (r: (String, String, [u8; 32], [u8; 64]))
    ensures
        created_keys(r),
{
    _create_keys_schnorrkel()
}

/// A public key that an adversarial node presents: that of a fresh key
/// pair, written as the key files hold keys.
pub fn _create_adversarial_key() -> (r: String)
    ensures
        exists|pk: Seq<u8>| pk.len() == 32 && public_key_decodes(pk) && r@ == key_text(pk),
{
    let keypair = generate_keypair();
    let false_key_bytes = public_key_bytes(&keypair);
    key_text_of(&false_key_bytes)
}

/// The texts can be checked: each reads as JSON bytes, the first as a public
/// key and the second as a signature.
pub open spec fn signature_texts_ok(pubkeystr: Seq<char>, signstr: Seq<char>) -> bool {
    &&& json_bytes(pubkeystr) is Some
    &&& public_key_decodes(json_bytes(pubkeystr)->0)
    &&& json_bytes(signstr) is Some
    &&& signature_decodes(json_bytes(signstr)->0)
}

/// The texts are byte lists `[1, 2, 3]` of a public key and of a signature.
pub open spec fn key_lists(pubkeystr: Seq<char>, signstr: Seq<char>) -> bool {
    exists|pk: Seq<u8>, sig: Seq<u8>|
        #![trigger debug_bytes(pk), debug_bytes(sig)]
        pubkeystr == debug_bytes(pk) && signstr == debug_bytes(sig) && public_key_decodes(pk)
            && signature_decodes(sig)
}

/// Checks a signature on the fixed message: the texts are read as JSON byte
/// lists, then as a public key and a signature, and the signature is
/// verified under the key.
pub fn _verify_schnorrkel_sign(pubkeystr: &str, signstr: &str) -> (ok: bool)
    requires
        signature_texts_ok(pubkeystr@, signstr@) || key_lists(pubkeystr@, signstr@),
    ensures
        json_bytes(pubkeystr@) is Some && json_bytes(signstr@) is Some,
        ok == schnorr_verifies(json_bytes(pubkeystr@)->0, json_bytes(signstr@)->0, key_context(), key_message()),
        forall|pk: Seq<u8>, sig: Seq<u8>|
            #![trigger debug_bytes(pk), debug_bytes(sig)]
            pubkeystr@ == debug_bytes(pk) && signstr@ == debug_bytes(sig) ==> ok == schnorr_verifies(
                pk,
                sig,
                key_context(),
                key_message(),
            ),
{
    let pubkeybytes = match json_u8_list(pubkeystr) {
        Ok(b) => b,
        Err(_) => {
            proof {
                if key_lists(pubkeystr@, signstr@) {
                    let (pk, sig) = choose|pk: Seq<u8>, sig: Seq<u8>|
                        #![trigger debug_bytes(pk), debug_bytes(sig)]
                        pubkeystr@ == debug_bytes(pk) && signstr@ == debug_bytes(sig)
                            && public_key_decodes(pk) && signature_decodes(sig);
                    assert(pubkeystr@ == debug_bytes(pk));
                }
            }
            assert(false);
            return false;
        },
    };
    let signstrbytes = match json_u8_list(signstr) {
        Ok(b) => b,
        Err(_) => {
            proof {
                if key_lists(pubkeystr@, signstr@) {
                    let (pk, sig) = choose|pk: Seq<u8>, sig: Seq<u8>|
                        #![trigger debug_bytes(pk), debug_bytes(sig)]
                        pubkeystr@ == debug_bytes(pk) && signstr@ == debug_bytes(sig)
                            && public_key_decodes(pk) && signature_decodes(sig);
                    assert(signstr@ == debug_bytes(sig));
                }
            }
            assert(false);
            return false;
        },
    };
    proof {
        if key_lists(pubkeystr@, signstr@) {
            let (pk, sig) = choose|pk: Seq<u8>, sig: Seq<u8>|
                #![trigger debug_bytes(pk), debug_bytes(sig)]
                pubkeystr@ == debug_bytes(pk) && signstr@ == debug_bytes(sig) && public_key_decodes(pk)
                    && signature_decodes(sig);
            assert(pubkeystr@ == debug_bytes(pk));
            assert(signstr@ == debug_bytes(sig));
        }
    }
    let context = "signature context".as_bytes();
    let message = "zake kal".as_bytes();
    assert(context@ == key_context() && message@ == key_message());
    let ok = verify_message(pubkeybytes.as_slice(), signstrbytes.as_slice(), context, message);
    assert forall|pk: Seq<u8>, sig: Seq<u8>|
        pubkeystr@ == debug_bytes(pk) && signstr@ == debug_bytes(sig) implies ok == schnorr_verifies(
        pk,
        sig,
        key_context(),
        key_message(),
    ) by {
        assert(pubkeystr@ == debug_bytes(pk));
        assert(signstr@ == debug_bytes(sig));
    }
    ok
}

/// Checks a signature where the texts can be read: `None` exactly where
/// they do not read as a public key and a signature, else the verdict of
/// `_verify_schnorrkel_sign`.
pub fn try_verify_schnorrkel_sign(pubkeystr: &str, signstr: &str) -> (r: Option<bool>)
    ensures
        r is Some <==> signature_texts_ok(pubkeystr@, signstr@),
        r matches Some(b) ==> b == schnorr_verifies(json_bytes(pubkeystr@)->0, json_bytes(signstr@)->0, key_context(), key_message()),
{
    let pubkeybytes = match json_u8_list(pubkeystr) {
        Ok(b) => b,
        Err(_) => {
            return None;
        },
    };
    let signstrbytes = match json_u8_list(signstr) {
        Ok(b) => b,
        Err(_) => {
            return None;
        },
    };
    match public_key_from(pubkeybytes.as_slice()) {
        Ok(_) => {},
        Err(_) => {
            return None;
        },
    }
    match signature_from(signstrbytes.as_slice()) {
        Ok(_) => {},
        Err(_) => {
            return None;
        },
    }
    Some(_verify_schnorrkel_sign(pubkeystr, signstr))
}

/// The key files that `create_keys` writes, without their closing `//`, are
/// the byte lists of its public key and of its signature: texts that
/// `_verify_schnorrkel_sign` takes, and on which it answers `true`, the
/// signature verifying under the key.
pub proof fn lemma_created_keys_verify(r: (String, String, [u8; 32], [u8; 64]))
    requires
        created_keys(r),
    ensures
        r.0@.len() >= 2 && r.1@.len() >= 2,
        r.0@.subrange(0, r.0@.len() - 2) == debug_bytes(r.2@),
        r.1@.subrange(0, r.1@.len() - 2) == debug_bytes(r.3@),
        key_lists(r.0@.subrange(0, r.0@.len() - 2), r.1@.subrange(0, r.1@.len() - 2)),
        schnorr_verifies(r.2@, r.3@, key_context(), key_message()),
{
    let pk = r.2@;
    let sig = r.3@;
    assert(r.0@ == key_text(pk));
    assert(r.1@ == key_text(sig));
    assert(r.0@.subrange(0, r.0@.len() - 2) =~= debug_bytes(pk));
    assert(r.1@.subrange(0, r.1@.len() - 2) =~= debug_bytes(sig));
}

} // verus!
