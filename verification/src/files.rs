//! Which files and directories secrets may be kept in.
use crate::admission::MAX_STATE;
use crate::error::Error;
use vstd::prelude::*;

verus! {

/// What the file system says of a path, without following a link.
#[derive(Debug, Clone, Copy, PartialEq, Eq)]
pub struct FileFacts {
    pub file: bool,
    pub directory: bool,
    pub symlink: bool,
    pub links: u64,
    pub mode: u32,
}

/// Whether only its owner may use a file with these permission bits.
pub open spec fn private_mode(mode: u32) -> bool {
    mode & 0o077 == 0
}

/// Whether this is a regular file under one name that only its owner may use.
pub open spec fn private_file(f: FileFacts) -> bool {
    f.file && !f.symlink && f.links == 1 && private_mode(f.mode)
}

impl FileFacts {
    /// Whether a private key may be kept here: a regular file under one name that only its owner
    /// may use.
    pub fn validate_key(&self) -> (r: Result<(), Error>)
        ensures
            r == (if private_file(*self) {
                Ok::<(), Error>(())
            } else {
                Err::<(), Error>(
                    Error::Config("key must be a private (0600), unlinked regular file"),
                )
            }),
    {
        if !self.file || self.symlink || self.links != 1 || self.mode & 0o077 != 0 {
            return Err(Error::Config("key must be a private (0600), unlinked regular file"));
        }
        Ok(())
    }

    /// Whether private keys may be kept in this directory.
    pub fn validate_key_directory(&self) -> (r: Result<(), Error>)
        ensures
            r == (if self.directory && !self.symlink && private_mode(self.mode) {
                Ok::<(), Error>(())
            } else {
                Err::<(), Error>(
                    Error::Config("key directory must be private (0700) and not a symlink"),
                )
            }),
    {
        if !self.directory || self.symlink || self.mode & 0o077 != 0 {
            return Err(Error::Config("key directory must be private (0700) and not a symlink"));
        }
        Ok(())
    }
}

impl FileFacts {
    /// Whether this is a directory that the state of a host may be kept in.
    pub fn validate_state_directory(&self) -> (r: Result<(), Error>)
        ensures
            r == if !self.directory || self.symlink {
                Err::<(), Error>(
                    Error::Config("persistent-state directory must be a real directory"),
                )
            } else if !private_mode(self.mode) {
                Err(Error::Config("persistent-state directory must be private (0700)"))
            } else {
                Ok(())
            },
    {
        if !self.directory || self.symlink {
            return Err(Error::Config("persistent-state directory must be a real directory"));
        }
        if self.mode & 0o077 != 0 {
            return Err(Error::Config("persistent-state directory must be private (0700)"));
        }
        Ok(())
    }

    /// Whether this is a file that the state of a host may be kept in.
    pub fn validate_state(&self) -> (r: Result<(), Error>)
        ensures
            r == if !self.file || self.symlink {
                Err::<(), Error>(Error::Config("persistent state must be a private regular file"))
            } else if self.links != 1 || !private_mode(self.mode) {
                Err(Error::Config("persistent state must be an unlinked private (0600) file"))
            } else {
                Ok(())
            },
    {
        if !self.file || self.symlink {
            return Err(Error::Config("persistent state must be a private regular file"));
        }
        if self.links != 1 || self.mode & 0o077 != 0 {
            return Err(Error::Config("persistent state must be an unlinked private (0600) file"));
        }
        Ok(())
    }
}

/// Whether the state of a host is short enough to be kept in a file.
pub fn check_state_size(bytes: &[u8]) -> (r: Result<(), Error>)
    ensures
        r == if bytes@.len() > MAX_STATE {
            Err::<(), Error>(Error::MessageTooLarge)
        } else {
            Ok(())
        },
{
    if bytes.len() > MAX_STATE {
        return Err(Error::MessageTooLarge);
    }
    Ok(())
}

} // verus!
