//! The access gate: a durable single-passcode lock with explicit
//! lock/unlock state.
//!
//! The state machine lives here in verified code: setting a non-empty
//! passcode stores its digest and locks the access gate, a correct attempt unlocks
//! it, an empty passcode (or an explicit deletion) removes it, and a gate
//! without a passcode never reports itself locked, whatever its stored
//! flag says. Passcodes are compared only by digest; the raw value is never
//! kept. Callers own the process-wide mutual exclusion and mirror every
//! mutation to the backing file; the exclusive borrow taken by each
//! mutating operation stands for holding that lock.

use vstd::prelude::*;
use crate::platform::{sha256_of, sha256_digest};

verus! {

/// The sixteen lowercase hexadecimal digit characters.
pub open spec fn hex_digits() -> Seq<char> {
    seq!['0', '1', '2', '3', '4', '5', '6', '7', '8', '9', 'a', 'b', 'c', 'd', 'e', 'f']
}

/// `c` is a lowercase hexadecimal digit.
pub open spec fn is_hex_char(c: char) -> bool {
    (48 <= c as u32 && c as u32 <= 57) || (97 <= c as u32 && c as u32 <= 102)
}

/// Lowercase hexadecimal rendering of a byte sequence, two digits a byte.
pub open spec fn hex_of(b: Seq<u8>) -> Seq<char> {
    Seq::new(
        2 * b.len(),
        |i: int|
            if i % 2 == 0 {
                hex_digits()[b[i / 2] as int / 16]
            } else {
                hex_digits()[b[i / 2] as int % 16]
            },
    )
}

/// The digest string stored for a passcode: its SHA-256 digest, in
/// lowercase hexadecimal.
pub open spec fn digest_of(s: Seq<char>) -> Seq<char> {
    hex_of(sha256_of(s))
}

/// Converts one value below sixteen to its hexadecimal digit character.
fn hex_digit_char(v: u8) -> (c: char)
    requires
        v < 16,
    ensures
        c == hex_digits()[v as int],
        is_hex_char(c),
{
    if v < 10 {
        (48 + v) as char
    } else {
        (87 + v) as char
    }
}

/// Renders a byte sequence in lowercase hexadecimal.
fn to_hex(bytes: &Vec<u8>) -> (r: String)
    ensures
        r@ == hex_of(bytes@),
{
    let n = bytes.len();
    let mut out = String::new();
    let mut i: usize = 0;
    while i < n
        invariant
            0 <= i <= n,
            n == bytes@.len(),
            out@.len() == 2 * i,
            forall|j: int| 0 <= j < 2 * i ==> out@[j] == hex_of(bytes@)[j],
        decreases n - i,
    {
        let b = bytes[i];
        out.push(hex_digit_char(b / 16));
        out.push(hex_digit_char(b % 16));
        i += 1;
    }
    proof {
        assert(out@ =~= hex_of(bytes@));
    }
    out
}

/// Computes the digest stored for a passcode.
pub fn hash_password(password: &str) -> (r: String)
    ensures
        r@ == digest_of(password@),
        r@.len() == 64,
        forall|j: int| 0 <= j < r@.len() ==> is_hex_char(#[trigger] r@[j]),
{
    let bytes = sha256_digest(password);
    let r = to_hex(&bytes);
    proof {
        assert forall|j: int| 0 <= j < r@.len() implies is_hex_char(#[trigger] r@[j]) by {
            let v: int = if j % 2 == 0 {
                bytes@[j / 2] as int / 16
            } else {
                bytes@[j / 2] as int % 16
            };
            assert(0 <= v < 16);
            assert(is_hex_char(hex_digits()[v]));
        }
    }
    r
}

/// The persisted shape of the access gate: the passcode digest, absent when no
/// passcode is configured, and the stored lock flag.
#[derive(Debug)]
pub struct PasswordData {
    /// Hex-encoded SHA-256 digest of the current passcode, or `None`.
    pub password_hash: Option<String>,
    /// The stored lock flag, meaningful only while a passcode exists.
    pub locked: bool,
}

impl PasswordData {
    /// A stored digest, when present, is a 64-character lowercase
    /// hexadecimal string.
    pub open spec fn wf(self) -> bool {
        match self.password_hash {
            Some(h) => h@.len() == 64 && forall|j: int|
                0 <= j < h@.len() ==> is_hex_char(#[trigger] h@[j]),
            None => true,
        }
    }
}

/// The access gate's in-memory state, exclusively owned for the process lifetime.
/// Durability is the owner's concern: after every mutating operation the
/// owner rewrites the backing file in full from this value.
#[derive(Debug)]
pub struct PasswordState {
    /// The state that is mirrored to the backing file.
    pub password_data: PasswordData,
}

impl PasswordState {
    /// A passcode is configured.
    pub open spec fn has_pin(self) -> bool {
        self.password_data.password_hash is Some
    }

    /// The stored digest, as a character sequence.
    pub open spec fn stored_hash(self) -> Option<Seq<char>> {
        match self.password_data.password_hash {
            Some(h) => Some(h@),
            None => None,
        }
    }

    /// The access gate reports locked: only a gate with a passcode can be locked,
    /// whatever the stored flag says.
    pub open spec fn observably_locked(self) -> bool {
        self.has_pin() && self.password_data.locked
    }

    /// Well-formedness of the stored digest.
    pub open spec fn wf(self) -> bool {
        self.password_data.wf()
    }

    /// Sets the stored lock flag. The observable lock state still follows
    /// the rule that a gate without a passcode is never locked.
    pub fn set_locked_internal(&mut self, locked: bool)
        ensures
            final(self).password_data.password_hash == old(self).password_data.password_hash,
            final(self).password_data.locked == locked,
            final(self).wf() == old(self).wf(),
            final(self).observably_locked() == (old(self).has_pin() && locked),
    {
        self.password_data.locked = locked;
    }

    /// Checks an attempt against the stored digest by full equality.
    /// A match unlocks the access gate and returns true; a mismatch, or the
    /// absence of a passcode, changes nothing and returns false.
    pub fn check_password_internal(&mut self, attempt: &str) -> (r: bool)
        ensures
            r == (match old(self).stored_hash() {
                Some(h) => h == digest_of(attempt@),
                None => false,
            }),
            final(self).password_data.password_hash == old(self).password_data.password_hash,
            r ==> final(self).password_data.locked == false,
            !r ==> *final(self) == *old(self),
            final(self).wf() == old(self).wf(),
            r ==> !final(self).observably_locked(),
    {
        let matched = match &self.password_data.password_hash {
            Some(h) => {
                let attempt_hash = hash_password(attempt);
                *h == attempt_hash
            },
            None => false,
        };
        if matched {
            self.password_data.locked = false;
        }
        matched
    }

    /// Sets a new passcode, or removes the passcode when the value is
    /// empty. A non-empty passcode is stored as its digest and immediately
    /// locks the access gate; the empty value clears both the digest and the lock.
    pub fn set_password_internal(&mut self, new_password: &str)
        ensures
            final(self).wf(),
            new_password@.len() == 0 ==> !final(self).has_pin()
                && !final(self).observably_locked()
                && final(self).password_data.locked == false,
            new_password@.len() > 0 ==> final(self).stored_hash() == Some(
                digest_of(new_password@),
            ) && final(self).password_data.locked == true && final(self).observably_locked(),
    {
        if new_password.unicode_len() == 0 {
            self.password_data.password_hash = None;
            self.password_data.locked = false;
        } else {
            self.password_data.password_hash = Some(hash_password(new_password));
            self.password_data.locked = true;
        }
    }

    /// A passcode is configured.
    pub fn is_pin_set_internal(&self) -> (r: bool)
        ensures
            r == self.has_pin(),
    {
        self.password_data.password_hash.is_some()
    }

    /// The access gate reports locked only while a passcode exists.
    pub fn is_locked_internal(&self) -> (r: bool)
        ensures
            r == self.observably_locked(),
    {
        if self.is_pin_set_internal() {
            self.password_data.locked
        } else {
            false
        }
    }

    /// Unconditionally removes the passcode and unlocks the access gate,
    /// equivalent to setting the empty passcode.
    pub fn delete_pin_internal(&mut self)
        ensures
            final(self).wf(),
            !final(self).has_pin(),
            final(self).password_data.locked == false,
            !final(self).observably_locked(),
    {
        self.password_data.password_hash = None;
        self.password_data.locked = false;
    }
}

/// Sets the stored lock flag while holding the access gate exclusively.
pub fn set_locked(state: &mut PasswordState, locked: bool)
    ensures
        final(state).password_data.password_hash == old(state).password_data.password_hash,
        final(state).password_data.locked == locked,
        final(state).wf() == old(state).wf(),
        final(state).observably_locked() == (old(state).has_pin() && locked),
{
    state.set_locked_internal(locked);
}

/// Reports whether the access gate is locked; false whenever no passcode exists.
pub fn is_locked(state: &PasswordState) -> (r: bool)
    ensures
        r == state.observably_locked(),
{
    state.is_locked_internal()
}

/// Checks a passcode attempt; a correct attempt unlocks the access gate.
pub fn check_password(state: &mut PasswordState, attempt: &str) -> (r: bool)
    ensures
        r == (match old(state).stored_hash() {
            Some(h) => h == digest_of(attempt@),
            None => false,
        }),
        final(state).password_data.password_hash == old(state).password_data.password_hash,
        r ==> final(state).password_data.locked == false,
        !r ==> *final(state) == *old(state),
        final(state).wf() == old(state).wf(),
{
    state.check_password_internal(attempt)
}

/// Sets or clears the passcode; a fresh passcode immediately locks the
/// gate, and the empty value clears passcode and lock alike.
pub fn set_password(state: &mut PasswordState, new_password: &str)
    ensures
        final(state).wf(),
        new_password@.len() == 0 ==> !final(state).has_pin()
            && final(state).password_data.locked == false && !final(state).observably_locked(),
        new_password@.len() > 0 ==> final(state).stored_hash() == Some(digest_of(new_password@))
            && final(state).password_data.locked == true && final(state).observably_locked(),
{
    state.set_password_internal(new_password);
}

/// Reports whether a passcode is configured.
pub fn get_is_pin_set(state: &PasswordState) -> (r: bool)
    ensures
        r == state.has_pin(),
{
    state.is_pin_set_internal()
}

/// Removes the passcode unconditionally and unlocks the access gate.
pub fn do_delete_pin(state: &mut PasswordState)
    ensures
        final(state).wf(),
        !final(state).has_pin(),
        final(state).password_data.locked == false,
        !final(state).observably_locked(),
{
    state.delete_pin_internal();
}

/// A gate without a passcode is never observably locked, whatever sequence
/// of operations produced the state — explicit `set_locked(true)` calls
/// included, since only the stored flag changes while the observer keeps
/// requiring a passcode.
pub proof fn lemma_unlocked_without_pin(s: PasswordState)
    ensures
        !s.has_pin() ==> !s.observably_locked(),
{
}

} // verus!
