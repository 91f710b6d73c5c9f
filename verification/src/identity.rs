//! The private key that an endpoint is known by, and the files that hold one.
use crate::crypto::{public_key, random_secret, EndpointId, Secret};
use crate::error::Error;
use crate::files::{private_file, FileFacts};
use crate::octets::to_array;
use vstd::prelude::*;

verus! {

/// An endpoint's private key. Its view is the key's bytes.
pub struct Identity {
    secret: Secret,
}

impl View for Identity {
    type V = Seq<u8>;

    closed spec fn view(&self) -> Seq<u8> {
        self.secret@
    }
}

impl Clone for Identity {
    fn clone(&self) -> (i: Self)
        ensures
            i@ == self@,
    {
        Identity { secret: self.secret.copy() }
    }
}

impl Default for Identity {
    fn default() -> Self {
        Identity::generate()
    }
}

impl Identity {
    /// A key drawn at random.
    pub fn generate() -> Identity {
        Identity::from_bytes(&random_secret())
    }

    /// Restores an identity from an application-managed private key store.
    pub fn from_bytes(bytes: &[u8; 32]) -> (i: Identity)
        ensures
            i@ == bytes@,
    {
        Identity { secret: Secret::from_bytes(bytes) }
    }

    /// Exports the private key. The caller must keep these bytes confidential.
    pub fn to_bytes(&self) -> (bytes: [u8; 32])
        ensures
            bytes@ == self@,
            key_in_file(bytes@) == Ok::<Seq<u8>, Error>(self@),
    {
        self.secret.to_bytes()
    }

    pub fn endpoint_id(&self) -> (id: EndpointId)
        ensures
            id@ == public_key(self@),
            id.wf(),
    {
        self.secret.public()
    }

    /// The key itself, for signing.
    pub fn secret(&self) -> (s: &Secret)
        ensures
            s@ == self@,
    {
        &self.secret
    }

    /// The identity whose key a file holds, if the file holds exactly a key.
    pub fn from_file(contents: &[u8]) -> (r: Result<Identity, Error>)
        ensures
            match key_in_file(contents@) {
                Ok(key) => r is Ok && r->Ok_0@ == key,
                Err(e) => r is Err && r->Err_0 == e,
            },
    {
        if contents.len() != 32 {
            return Err(Error::Config("key must contain exactly 32 bytes"));
        }
        Ok(Identity::from_bytes(&to_array(contents)))
    }

    /// The identity whose key is kept in a file, where `facts` is what the file system says of the
    /// file, and `contents` what it holds.
    pub fn load(facts: &FileFacts, contents: &[u8]) -> (r: Result<Identity, Error>)
        ensures
            r is Ok <==> private_file(*facts) && contents@.len() == 32,
            r matches Ok(identity) ==> identity@ == contents@,
            match loaded_key(*facts, contents@) {
                Ok(key) => r is Ok && r->Ok_0@ == key,
                Err(e) => r is Err && r->Err_0 == e,
            },
    {
        facts.validate_key()?;
        Identity::from_file(contents)
    }
}

/// The key that is kept in a file, if the file may keep one and holds exactly a key.
pub open spec fn loaded_key(facts: FileFacts, contents: Seq<u8>) -> Result<Seq<u8>, Error> {
    if !private_file(facts) {
        Err(Error::Config("key must be a private (0600), unlinked regular file"))
    } else {
        key_in_file(contents)
    }
}

/// The key that a file holds, if the file holds exactly a key.
pub open spec fn key_in_file(contents: Seq<u8>) -> Result<Seq<u8>, Error> {
    if contents.len() != 32 {
        Err(Error::Config("key must contain exactly 32 bytes"))
    } else {
        Ok(contents)
    }
}

/// A key that is written to a private file is read back from it. From a link, a file under two
/// names, one that others may use, or one that does not hold exactly a key, nothing is read.
pub proof fn law_key_file_round_trip(facts: FileFacts, key: Seq<u8>, contents: Seq<u8>)
    requires
        key.len() == 32,
    ensures
        key_in_file(key) == Ok::<Seq<u8>, Error>(key),
        private_file(facts) ==> loaded_key(facts, key) == Ok::<Seq<u8>, Error>(key),
        loaded_key(facts, contents) is Ok <==> {
            &&& facts.file && !facts.symlink
            &&& facts.links == 1
            &&& facts.mode & 0o077 == 0
            &&& contents.len() == 32
        },
        loaded_key(facts, contents) matches Ok(k) ==> k == contents,
{
}

} // verus!
