//! Credentials: why an identity provider refuses them, and a provider
//! backed by a file of `user:hash` lines whose hashes Argon2 checks.
use crate::topic::{pieces, split_pieces};
use argon2::password_hash::PasswordVerifier;
use vstd::prelude::*;
use vstd::string::StringSliceAdditionalSpecFns;

verus! {

#[derive(Debug, Clone, Copy, PartialEq, Eq, Structural)]
pub enum AuthenticationError {
    UserNotFound,
    InvalidPassword,
    ProviderError,
}

#[derive(Debug, Clone, Copy, PartialEq, Eq, Structural)]
pub enum FileIdentityManagerError {
    /// A line without a `:` between user name and hash.
    InvalidEntry,
}

pub const NEWLINE: u8 = 0x0A;

pub const CARRIAGE_RETURN: u8 = 0x0D;

pub const ENTRY_SEPARATOR: u8 = 0x3A;

/// Whether the stored hash reads as a PHC string.
pub uninterp spec fn phc_hash_parses(hash: Seq<u8>) -> bool;

/// Whether Argon2, with the parameters and salt that the stored hash
/// names, derives that hash from the password.
pub uninterp spec fn argon2_accepts(hash: Seq<u8>, password: Seq<u8>) -> bool;

/// Relies on argon2's `PasswordVerifier::verify_password` (with
/// `Argon2::default()`), called on the stored hash parsed by
/// `password_hash::PasswordHash::new`: `None` where the hash, as UTF-8, is
/// no PHC string, else whether the password matches it.
#[verifier::external_body]
fn argon2_verify(hash: &[u8], password: &[u8]) -> (r: Option<bool>)
    ensures
        r == if phc_hash_parses(hash@) {
            Some(argon2_accepts(hash@, password@))
        } else {
            None::<bool>
        },
{
    let parsed = match std::str::from_utf8(hash) {
        Ok(s) => argon2::password_hash::PasswordHash::new(s).ok(),
        Err(_) => None,
    };
    match parsed {
        Some(h) => Some(argon2::Argon2::default().verify_password(password, &h).is_ok()),
        None => None,
    }
}

/// The lines of a file, as `str::lines` gives them: split at `\n`, a
/// final empty piece dropped, and one trailing `\r` removed from each.
pub open spec fn file_lines(content: Seq<u8>) -> Seq<Seq<u8>> {
    let p = pieces(content, NEWLINE);
    let kept = if p.last().len() == 0 {
        p.drop_last()
    } else {
        p
    };
    kept.map_values(|l: Seq<u8>| strip_cr(l))
}

pub open spec fn strip_cr(l: Seq<u8>) -> Seq<u8> {
    if l.len() > 0 && l.last() == CARRIAGE_RETURN {
        l.drop_last()
    } else {
        l
    }
}

/// The position of the first `:` in a line.
pub open spec fn first_colon(l: Seq<u8>, i: int) -> bool {
    0 <= i < l.len() && l[i] == ENTRY_SEPARATOR && forall|j: int|
        0 <= j < i ==> l[j] != ENTRY_SEPARATOR
}

pub open spec fn has_colon(l: Seq<u8>) -> bool {
    exists|i: int| 0 <= i < l.len() && l[i] == ENTRY_SEPARATOR
}

/// A line split at its first `:` into user name and hash.
pub open spec fn entry_of(l: Seq<u8>) -> (Seq<u8>, Seq<u8>) {
    let i = choose|i: int| first_colon(l, i);
    (l.subrange(0, i), l.subrange(i + 1, l.len() as int))
}

/// The entries of a credentials file, or `InvalidEntry` if a line has no
/// `:`.
pub open spec fn parse_credentials(content: Seq<u8>) -> Result<Seq<(Seq<u8>, Seq<u8>)>, FileIdentityManagerError> {
    let lines = file_lines(content);
    if forall|k: int| 0 <= k < lines.len() ==> has_colon(#[trigger] lines[k]) {
        Ok(lines.map_values(|l: Seq<u8>| entry_of(l)))
    } else {
        Err(FileIdentityManagerError::InvalidEntry)
    }
}

/// The hash stored for a user name; where the name occurs more than once,
/// the last line counts.
pub open spec fn stored_hash(entries: Seq<(Seq<u8>, Seq<u8>)>, user: Seq<u8>) -> Option<Seq<u8>>
    decreases entries.len(),
{
    if entries.len() == 0 {
        None
    } else if entries.last().0 == user {
        Some(entries.last().1)
    } else {
        stored_hash(entries.drop_last(), user)
    }
}

/// The verdict on a password, given the user's stored hash (if any).
pub open spec fn verdict(stored: Option<Seq<u8>>, password: Seq<u8>) -> Result<(), AuthenticationError> {
    match stored {
        None => Err(AuthenticationError::UserNotFound),
        Some(h) => if !phc_hash_parses(h) {
            Err(AuthenticationError::ProviderError)
        } else if argon2_accepts(h, password) {
            Ok(())
        } else {
            Err(AuthenticationError::InvalidPassword)
        },
    }
}

/// The verdict once the lookup and Argon2 have answered: no user, an
/// unreadable hash, a wrong password, or success.
pub fn credential_verdict(found: bool, readable: bool, accepted: bool) -> (r: Result<(), AuthenticationError>)
    ensures
        r == if !found {
            Err(AuthenticationError::UserNotFound)
        } else if !readable {
            Err(AuthenticationError::ProviderError)
        } else if accepted {
            Ok(())
        } else {
            Err(AuthenticationError::InvalidPassword)
        },
{
    if !found {
        Err(AuthenticationError::UserNotFound)
    } else if !readable {
        Err(AuthenticationError::ProviderError)
    } else if accepted {
        Ok(())
    } else {
        Err(AuthenticationError::InvalidPassword)
    }
}

pub open spec fn entries_view(v: Seq<(Vec<u8>, Vec<u8>)>) -> Seq<(Seq<u8>, Seq<u8>)> {
    v.map_values(|e: (Vec<u8>, Vec<u8>)| (e.0@, e.1@))
}

pub struct FileIdentityManager {
    passwords_by_username: Vec<(Vec<u8>, Vec<u8>)>,
}

fn strip_carriage_return(l: Vec<u8>) -> (r: Vec<u8>)
    ensures
        r@ == strip_cr(l@),
{
    let mut l = l;
    if l.len() > 0 && l[l.len() - 1] == CARRIAGE_RETURN {
        l.pop();
    }
    l
}

fn split_entry(l: &Vec<u8>) -> (r: Option<(Vec<u8>, Vec<u8>)>)
    ensures
        match r {
            Some((u, h)) => has_colon(l@) && (u@, h@) == entry_of(l@),
            None => !has_colon(l@),
        },
{
    let mut i: usize = 0;
    while i < l.len()
        invariant
            i <= l@.len(),
            forall|j: int| 0 <= j < i ==> l@[j] != ENTRY_SEPARATOR,
        decreases l@.len() - i,
    {
        if l[i] == ENTRY_SEPARATOR {
            let user = vstd::slice::slice_to_vec(vstd::slice::slice_subrange(l.as_slice(), 0, i));
            let hash = vstd::slice::slice_to_vec(vstd::slice::slice_subrange(l.as_slice(), i + 1, l.len()));
            proof {
                assert(first_colon(l@, i as int));
                let k = choose|k: int| first_colon(l@, k);
                assert(k == i) by {
                    if k < i {
                    } else if k > i {
                        assert(l@[i as int] != ENTRY_SEPARATOR);
                    }
                }
            }
            return Some((user, hash));
        }
        i = i + 1;
    }
    None
}

impl FileIdentityManager {
    pub closed spec fn view(&self) -> Seq<(Seq<u8>, Seq<u8>)> {
        entries_view(self.passwords_by_username@)
    }

    /// Reads the contents of a credentials file: one `user:hash` per line.
    pub fn from_credentials(content: &str) -> (r: Result<FileIdentityManager, FileIdentityManagerError>)
        ensures
            match (r, parse_credentials(content.spec_bytes())) {
                (Ok(m), Ok(entries)) => m@ == entries,
                (Err(e), Err(se)) => e == se,
                _ => false,
            },
    {
        let mut ps = split_pieces(content.as_bytes(), NEWLINE);
        let ghost p = pieces(content.spec_bytes(), NEWLINE);
        proof {
            crate::topic::lemma_pieces_nonempty(content.spec_bytes(), NEWLINE);
        }
        if ps[ps.len() - 1].len() == 0 {
            ps.pop();
        }
        let ghost kept = ps@.map_values(|l: Vec<u8>| l@);
        let ghost lines = file_lines(content.spec_bytes());
        assert(kept.map_values(|l: Seq<u8>| strip_cr(l)) =~= lines);
        let mut entries: Vec<(Vec<u8>, Vec<u8>)> = Vec::new();
        let mut k: usize = 0;
        while k < ps.len()
            invariant
                k <= ps@.len(),
                kept == ps@.map_values(|l: Vec<u8>| l@),
                lines == kept.map_values(|l: Seq<u8>| strip_cr(l)),
                lines == file_lines(content.spec_bytes()),
                forall|j: int| 0 <= j < k ==> has_colon(#[trigger] lines[j]),
                entries_view(entries@) == lines.subrange(0, k as int).map_values(|l: Seq<u8>| entry_of(l)),
            decreases ps@.len() - k,
        {
            let line = strip_carriage_return(ps[k].clone());
            assert(line@ == lines[k as int]) by {
                assert(ps@[k as int]@ == kept[k as int]);
            }
            let ghost old_e = entries_view(entries@);
            match split_entry(&line) {
                None => {
                    assert(!has_colon(lines[k as int]));
                    return Err(FileIdentityManagerError::InvalidEntry);
                },
                Some(e) => {
                    entries.push(e);
                    assert(entries_view(entries@) =~= old_e.push(entry_of(lines[k as int])));
                    assert(lines.subrange(0, k + 1).map_values(|l: Seq<u8>| entry_of(l)) =~= lines.subrange(
                        0,
                        k as int,
                    ).map_values(|l: Seq<u8>| entry_of(l)).push(entry_of(lines[k as int])));
                },
            }
            k = k + 1;
        }
        assert(lines.subrange(0, k as int) =~= lines);
        Ok(FileIdentityManager { passwords_by_username: entries })
    }

    fn lookup(&self, user: &[u8]) -> (r: Option<usize>)
        ensures
            match r {
                Some(i) => i < self.passwords_by_username@.len() && stored_hash(self@, user@) == Some(
                    self.passwords_by_username@[i as int].1@,
                ),
                None => stored_hash(self@, user@) is None,
            },
    {
        let mut i: usize = self.passwords_by_username.len();
        assert(self@.subrange(0, i as int) =~= self@);
        while i > 0
            invariant
                i <= self.passwords_by_username@.len(),
                stored_hash(self@, user@) == stored_hash(self@.subrange(0, i as int), user@),
            decreases i,
        {
            let ghost pre = self@.subrange(0, i as int);
            assert(pre.drop_last() =~= self@.subrange(0, i - 1));
            assert(pre.last() == (self.passwords_by_username@[i - 1].0@, self.passwords_by_username@[i - 1].1@));
            if crate::topic::bytes_equal(self.passwords_by_username[i - 1].0.as_slice(), user) {
                return Some(i - 1);
            }
            i = i - 1;
        }
        None
    }

    /// Checks a user name and password against the stored hashes.
    pub fn authenticate(&self, username: &str, password: &str) -> (r: Result<(), AuthenticationError>)
        ensures
            r == verdict(stored_hash(self@, username.spec_bytes()), password.spec_bytes()),
    {
        match self.lookup(username.as_bytes()) {
            None => credential_verdict(false, false, false),
            Some(i) => {
                let hash = self.passwords_by_username[i].1.as_slice();
                match argon2_verify(hash, password.as_bytes()) {
                    None => credential_verdict(true, false, false),
                    Some(accepted) => credential_verdict(true, true, accepted),
                }
            },
        }
    }
}

} // verus!
