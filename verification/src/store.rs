//! The entry and conversation store.
//!
//! A [`Journal`] holds the three relations of the persistent store: journal
//! entries keyed by calendar date, assistant chat sessions, and chat
//! messages owned by their sessions. The store enforces its integrity rules
//! here, in verified code: at most one entry per date, dates valid before
//! insertion, message ids unique and monotonically assigned, messages never
//! outliving their session, and the orderings that the listing operations
//! promise. Durability is a caller's concern: a caller loads whatever state
//! exists into a `Journal`, applies operations, and mirrors the result back
//! to its backing file.

use vstd::prelude::*;
use crate::dates::{valid_date, is_valid_date};
use crate::text::{
    lex_lt, lex_le, str_eq, str_lt, str_le, lemma_lex_lt_total, lemma_lex_lt_transitive,
    lemma_lex_lt_irreflexive, lemma_lex_le_transitive,
};

verus! {

/// One journal record for a single calendar date.
#[derive(Debug)]
pub struct Entry {
    /// Calendar date in `YYYY-MM-DD` form; the primary key.
    pub date: String,
    /// Short required title.
    pub title: Option<String>,
    /// Optional long text; opaque to the store.
    pub content: Option<String>,
    /// Optional per-entry secret, independent of the access gate.
    pub password: Option<String>,
    /// Optional relative path to an attachment file.
    pub image: Option<String>,
}

/// One assistant conversation.
#[derive(Debug)]
pub struct ChatSession {
    /// Opaque unique identifier, immutable after creation.
    pub id: String,
    /// Timestamp at creation.
    pub created_at: String,
    /// Timestamp of the latest append; advances on every message.
    pub last_modified_at: String,
    /// Derived from the first user message; immutable once set.
    pub title: Option<String>,
}

/// One turn in a chat session.
#[derive(Debug)]
pub struct ChatMessage {
    /// Store-wide identifier, assigned monotonically on insert.
    pub id: i64,
    /// The owning session's id; a message cannot outlive its session.
    pub session_id: String,
    /// Either `user` or `assistant`.
    pub sender: String,
    /// Message text, required non-empty.
    pub content: String,
    /// Insertion timestamp.
    pub timestamp: String,
}

/// Typed failures of the store.
#[derive(Clone, Copy, Debug, PartialEq, Eq, Structural)]
pub enum StoreError {
    /// Malformed date or an empty required field.
    InvalidInput,
    /// A row with the same primary key already exists.
    Conflict,
    /// The referenced row does not exist.
    NotFound,
    /// The storage engine cannot accept another row.
    StorageIO,
}

/// Clones an optional string, preserving its value exactly.
fn clone_opt_string(o: &Option<String>) -> (r: Option<String>)
    ensures
        r == *o,
{
    match o {
        Some(s) => Some(s.clone()),
        None => None,
    }
}

impl Clone for Entry {
    fn clone(&self) -> (r: Self)
        ensures
            r == *self,
    {
        Entry {
            date: self.date.clone(),
            title: clone_opt_string(&self.title),
            content: clone_opt_string(&self.content),
            password: clone_opt_string(&self.password),
            image: clone_opt_string(&self.image),
        }
    }
}

impl Clone for ChatSession {
    fn clone(&self) -> (r: Self)
        ensures
            r == *self,
    {
        ChatSession {
            id: self.id.clone(),
            created_at: self.created_at.clone(),
            last_modified_at: self.last_modified_at.clone(),
            title: clone_opt_string(&self.title),
        }
    }
}

impl Clone for ChatMessage {
    fn clone(&self) -> (r: Self)
        ensures
            r == *self,
    {
        ChatMessage {
            id: self.id,
            session_id: self.session_id.clone(),
            sender: self.sender.clone(),
            content: self.content.clone(),
            timestamp: self.timestamp.clone(),
        }
    }
}

/// View of an optional owned string as an optional character sequence.
pub open spec fn opt_string_view(o: Option<String>) -> Option<Seq<char>> {
    match o {
        Some(s) => Some(s@),
        None => None,
    }
}

/// View of an optional borrowed string as an optional character sequence.
pub open spec fn opt_str_view(o: Option<&str>) -> Option<Seq<char>> {
    match o {
        Some(s) => Some(s@),
        None => None,
    }
}

/// The entry's title is present and non-empty.
pub open spec fn title_present(t: Option<String>) -> bool {
    match t {
        Some(s) => s@.len() > 0,
        None => false,
    }
}

/// Some entry in `s` has date `d`.
pub open spec fn has_date(s: Seq<Entry>, d: Seq<char>) -> bool {
    exists|i: int| 0 <= i < s.len() && s[i].date@ == d
}

/// Entries are sorted by date in strictly descending order, which also
/// makes dates unique.
pub open spec fn entries_sorted(s: Seq<Entry>) -> bool {
    forall|i: int, j: int|
        0 <= i < j < s.len() ==> lex_lt(#[trigger] s[j].date@, #[trigger] s[i].date@)
}

/// Every stored entry carries a valid date and a non-empty title.
pub open spec fn entries_valid(s: Seq<Entry>) -> bool {
    forall|i: int|
        0 <= i < s.len() ==> valid_date(#[trigger] s[i].date@) && title_present(s[i].title)
}

/// Some session in `s` has id `id`.
pub open spec fn has_session(s: Seq<ChatSession>, id: Seq<char>) -> bool {
    exists|i: int| 0 <= i < s.len() && s[i].id@ == id
}

/// Session ids are pairwise distinct.
pub open spec fn session_ids_unique(s: Seq<ChatSession>) -> bool {
    forall|i: int, j: int|
        0 <= i < j < s.len() ==> (#[trigger] s[i].id@) != (#[trigger] s[j].id@)
}

/// Sessions are sorted by last modification, most recent first.
pub open spec fn sessions_sorted(s: Seq<ChatSession>) -> bool {
    forall|i: int, j: int|
        0 <= i < j < s.len() ==> lex_le(
            #[trigger] s[j].last_modified_at@,
            #[trigger] s[i].last_modified_at@,
        )
}

/// The sender tag is one of the two accepted roles.
pub open spec fn is_sender(s: Seq<char>) -> bool {
    s == "user"@ || s == "assistant"@
}

/// Message `a` sorts before message `b`: earlier timestamp, or same
/// timestamp and smaller id.
pub open spec fn msg_before(a: ChatMessage, b: ChatMessage) -> bool {
    lex_lt(a.timestamp@, b.timestamp@) || (a.timestamp@ == b.timestamp@ && a.id < b.id)
}

/// Messages are totally ordered by timestamp, ties broken by id.
pub open spec fn messages_sorted(m: Seq<ChatMessage>) -> bool {
    forall|i: int, j: int| 0 <= i < j < m.len() ==> msg_before(#[trigger] m[i], #[trigger] m[j])
}

/// Well-formedness of the message relation against the session relation:
/// ordering, id bounds and uniqueness, ownership, and field validity.
pub open spec fn messages_wf(m: Seq<ChatMessage>, sess: Seq<ChatSession>, next_id: int) -> bool {
    &&& messages_sorted(m)
    &&& forall|i: int, j: int|
        0 <= i < j < m.len() ==> (#[trigger] m[i].id) != (#[trigger] m[j].id)
    &&& forall|i: int| 0 <= i < m.len() ==> 0 <= (#[trigger] m[i].id) < next_id
    &&& forall|i: int| 0 <= i < m.len() ==> has_session(sess, (#[trigger] m[i]).session_id@)
    &&& forall|i: int|
        0 <= i < m.len() ==> is_sender((#[trigger] m[i]).sender@) && m[i].content@.len() > 0
}

/// The in-memory image of the store's three relations.
pub struct Journal {
    entry_vec: Vec<Entry>,
    session_vec: Vec<ChatSession>,
    message_vec: Vec<ChatMessage>,
    next_message_id: i64,
}

impl Journal {
    /// The entry relation, ordered by date descending.
    pub closed spec fn entries(self) -> Seq<Entry> {
        self.entry_vec@
    }

    /// The session relation, ordered by last modification descending.
    pub closed spec fn sessions(self) -> Seq<ChatSession> {
        self.session_vec@
    }

    /// The message relation, ordered by timestamp ascending, ties by id.
    pub closed spec fn messages(self) -> Seq<ChatMessage> {
        self.message_vec@
    }

    /// The id the next inserted message will receive.
    pub closed spec fn next_id(self) -> int {
        self.next_message_id as int
    }

    /// The store's integrity rules, preserved by every operation.
    pub open spec fn wf(self) -> bool {
        &&& entries_sorted(self.entries())
        &&& entries_valid(self.entries())
        &&& session_ids_unique(self.sessions())
        &&& sessions_sorted(self.sessions())
        &&& messages_wf(self.messages(), self.sessions(), self.next_id())
        &&& 0 <= self.next_id()
    }

    /// The store holds no rows at all.
    pub open spec fn is_empty_store(self) -> bool {
        &&& self.entries() == Seq::<Entry>::empty()
        &&& self.sessions() == Seq::<ChatSession>::empty()
        &&& self.messages() == Seq::<ChatMessage>::empty()
        &&& self.next_id() == 0
    }
}

/// Idempotently establishes the store: existing state is kept exactly as it
/// is, and only absent storage yields a fresh, empty store. Calling this a
/// second time on the result of a first call is therefore a no-op and
/// preserves every previously written row.
pub fn init_db(existing: Option<Journal>) -> (j: Journal)
    requires
        existing matches Some(j0) ==> j0.wf(),
    ensures
        j.wf(),
        match existing {
            Some(j0) => j == j0,
            None => j.is_empty_store(),
        },
{
    match existing {
        Some(j0) => j0,
        None => {
            let j = Journal {
                entry_vec: Vec::new(),
                session_vec: Vec::new(),
                message_vec: Vec::new(),
                next_message_id: 0,
            };
            proof {
                assert(j.entries() =~= Seq::<Entry>::empty());
                assert(j.sessions() =~= Seq::<ChatSession>::empty());
                assert(j.messages() =~= Seq::<ChatMessage>::empty());
            }
            j
        },
    }
}

/// Within a sorted entry relation a date determines its row.
pub proof fn lemma_sorted_dates_unique(s: Seq<Entry>, i: int, j: int)
    requires
        entries_sorted(s),
        0 <= i < s.len(),
        0 <= j < s.len(),
        s[i].date@ == s[j].date@,
    ensures
        i == j,
{
    if i < j {
        assert(lex_lt(s[j].date@, s[i].date@));
        lemma_lex_lt_irreflexive(s[i].date@);
    }
    if j < i {
        assert(lex_lt(s[i].date@, s[j].date@));
        lemma_lex_lt_irreflexive(s[i].date@);
    }
}

/// Inserting an entry at its descending-order position keeps the relation
/// sorted.
proof fn lemma_entries_insert_sorted(s: Seq<Entry>, e: Entry, i: int)
    requires
        entries_sorted(s),
        0 <= i <= s.len(),
        forall|j: int| 0 <= j < i ==> lex_lt(e.date@, (#[trigger] s[j]).date@),
        i < s.len() ==> lex_lt(s[i].date@, e.date@),
    ensures
        entries_sorted(s.insert(i, e)),
{
    let t = s.insert(i, e);
    s.insert_ensures(i, e);
    assert forall|p: int, q: int| 0 <= p < q < t.len() implies lex_lt(t[q].date@, t[p].date@) by {
        if p < i && q == i {
            assert(t[q] == e && t[p] == s[p]);
        } else if p == i && q > i {
            assert(t[p] == e && t[q] == s[q - 1]);
            if q - 1 > i {
                lemma_lex_lt_transitive(s[q - 1].date@, s[i].date@, e.date@);
            }
        } else if p < i && q > i {
            assert(t[p] == s[p] && t[q] == s[q - 1]);
        }
    }
}

impl Journal {
    /// Inserts a new entry. Fails with `InvalidInput` before anything is
    /// written when the date is not a valid `YYYY-MM-DD` calendar date or
    /// the required title is missing or empty; fails with `Conflict` when an
    /// entry for that date already exists, whatever the other fields hold.
    /// No partial effect is observable on failure.
    pub fn add_entry(&mut self, entry: Entry) -> (r: Result<(), StoreError>)
        requires
            old(self).wf(),
        ensures
            final(self).wf(),
            final(self).sessions() == old(self).sessions(),
            final(self).messages() == old(self).messages(),
            final(self).next_id() == old(self).next_id(),
            r is Ok <==> (valid_date(entry.date@) && !has_date(old(self).entries(), entry.date@)
                && title_present(entry.title)),
            !valid_date(entry.date@) ==> r == Err::<(), StoreError>(StoreError::InvalidInput)
                && final(self).entries() == old(self).entries(),
            valid_date(entry.date@) && has_date(old(self).entries(), entry.date@) ==> r
                == Err::<(), StoreError>(StoreError::Conflict) && final(self).entries() == old(
                self,
            ).entries(),
            valid_date(entry.date@) && !has_date(old(self).entries(), entry.date@)
                && !title_present(entry.title) ==> r == Err::<(), StoreError>(
                StoreError::InvalidInput,
            ) && final(self).entries() == old(self).entries(),
            r is Ok ==> exists|i: int|
                0 <= i <= old(self).entries().len() && final(self).entries() == old(
                    self,
                ).entries().insert(i, entry),
    {
        if !is_valid_date(entry.date.as_str()) {
            return Err(StoreError::InvalidInput);
        }
        let n = self.entry_vec.len();
        let mut i: usize = 0;
        while i < n
            invariant
                0 <= i <= n,
                n == self.entry_vec@.len(),
                forall|j: int| 0 <= j < i ==> (#[trigger] self.entry_vec@[j]).date@ != entry.date@,
            decreases n - i,
        {
            if str_eq(self.entry_vec[i].date.as_str(), entry.date.as_str()) {
                return Err(StoreError::Conflict);
            }
            i += 1;
        }
        assert(!has_date(self.entries(), entry.date@));
        let title_ok = match &entry.title {
            Some(t) => t.as_str().unicode_len() > 0,
            None => false,
        };
        if !title_ok {
            return Err(StoreError::InvalidInput);
        }
        let mut pos: usize = 0;
        while pos < n
            invariant
                0 <= pos <= n,
                n == self.entry_vec@.len(),
                forall|j: int|
                    0 <= j < pos ==> lex_lt(entry.date@, (#[trigger] self.entry_vec@[j]).date@),
            decreases n - pos,
        {
            if !str_lt(entry.date.as_str(), self.entry_vec[pos].date.as_str()) {
                break;
            }
            pos += 1;
        }
        proof {
            if pos < self.entry_vec@.len() {
                lemma_lex_lt_total(entry.date@, self.entry_vec@[pos as int].date@);
                assert(self.entry_vec@[pos as int].date@ != entry.date@);
                assert(lex_lt(self.entry_vec@[pos as int].date@, entry.date@));
            }
            lemma_entries_insert_sorted(self.entry_vec@, entry, pos as int);
        }
        self.entry_vec.insert(pos, entry);
        Ok(())
    }

    /// Looks an entry up by its date. Absence is signalled by `None`, not by
    /// an error.
    pub fn get_entry_by_date(&self, date: &str) -> (r: Option<Entry>)
        requires
            self.wf(),
        ensures
            match r {
                Some(e) => exists|i: int|
                    0 <= i < self.entries().len() && self.entries()[i] == e && e.date@ == date@,
                None => !has_date(self.entries(), date@),
            },
    {
        let n = self.entry_vec.len();
        let mut i: usize = 0;
        while i < n
            invariant
                0 <= i <= n,
                n == self.entry_vec@.len(),
                forall|j: int| 0 <= j < i ==> (#[trigger] self.entry_vec@[j]).date@ != date@,
            decreases n - i,
        {
            if str_eq(self.entry_vec[i].date.as_str(), date) {
                return Some(self.entry_vec[i].clone());
            }
            i += 1;
        }
        None
    }

    /// Returns every entry, most recent date first.
    pub fn get_entries(&self) -> (r: Vec<Entry>)
        requires
            self.wf(),
        ensures
            r@ == self.entries(),
    {
        let n = self.entry_vec.len();
        let mut out: Vec<Entry> = Vec::new();
        let mut i: usize = 0;
        while i < n
            invariant
                0 <= i <= n,
                n == self.entry_vec@.len(),
                out@.len() == i,
                forall|j: int| 0 <= j < i ==> out@[j] == self.entry_vec@[j],
            decreases n - i,
        {
            out.push(self.entry_vec[i].clone());
            i += 1;
        }
        proof {
            assert(out@ =~= self.entries());
        }
        out
    }

    /// Overwrites every mutable field of the entry for `date`. When no such
    /// entry exists the call succeeds and affects no row; callers must not
    /// assume existence. The replacement title is required and must be
    /// non-empty.
    pub fn update_entry_by_date(
        &mut self,
        date: &str,
        new_title: &str,
        new_content: Option<&str>,
        new_password: Option<&str>,
        new_image: Option<&str>,
    ) -> (r: Result<(), StoreError>)
        requires
            old(self).wf(),
        ensures
            final(self).wf(),
            final(self).sessions() == old(self).sessions(),
            final(self).messages() == old(self).messages(),
            final(self).next_id() == old(self).next_id(),
            r is Ok <==> new_title@.len() > 0,
            new_title@.len() == 0 ==> r == Err::<(), StoreError>(StoreError::InvalidInput)
                && final(self).entries() == old(self).entries(),
            r is Ok && !has_date(old(self).entries(), date@) ==> final(self).entries() == old(
                self,
            ).entries(),
            r is Ok && has_date(old(self).entries(), date@) ==> exists|i: int|
                {
                    &&& 0 <= i < old(self).entries().len()
                    &&& old(self).entries()[i].date@ == date@
                    &&& final(self).entries().len() == old(self).entries().len()
                    &&& (forall|k: int|
                        0 <= k < old(self).entries().len() && k != i ==> final(self).entries()[k]
                            == old(self).entries()[k])
                    &&& final(self).entries()[i].date@ == old(self).entries()[i].date@
                    &&& opt_string_view(final(self).entries()[i].title) == Some(new_title@)
                    &&& opt_string_view(final(self).entries()[i].content) == opt_str_view(
                        new_content,
                    )
                    &&& opt_string_view(final(self).entries()[i].password) == opt_str_view(
                        new_password,
                    )
                    &&& opt_string_view(final(self).entries()[i].image) == opt_str_view(new_image)
                },
    {
        if new_title.unicode_len() == 0 {
            return Err(StoreError::InvalidInput);
        }
        let n = self.entry_vec.len();
        let mut i: usize = 0;
        while i < n
            invariant
                0 <= i <= n,
                n == self.entry_vec@.len(),
                self.entry_vec@ == old(self).entry_vec@,
                self.session_vec@ == old(self).session_vec@,
                self.message_vec@ == old(self).message_vec@,
                self.next_message_id == old(self).next_message_id,
                forall|j: int| 0 <= j < i ==> (#[trigger] self.entry_vec@[j]).date@ != date@,
            decreases n - i,
        {
            if str_eq(self.entry_vec[i].date.as_str(), date) {
                let updated = Entry {
                    date: self.entry_vec[i].date.clone(),
                    title: Some(String::from_str(new_title)),
                    content: match new_content {
                        Some(c) => Some(String::from_str(c)),
                        None => None,
                    },
                    password: match new_password {
                        Some(c) => Some(String::from_str(c)),
                        None => None,
                    },
                    image: match new_image {
                        Some(c) => Some(String::from_str(c)),
                        None => None,
                    },
                };
                let ghost pre = self.entry_vec@;
                self.entry_vec.set(i, updated);
                proof {
                    let t = self.entry_vec@;
                    assert forall|k: int| 0 <= k < t.len() implies (#[trigger] t[k]).date@
                        == pre[k].date@ by {}
                    assert forall|p: int, q: int| 0 <= p < q < t.len() implies lex_lt(
                        t[q].date@,
                        t[p].date@,
                    ) by {
                        assert(lex_lt(pre[q].date@, pre[p].date@));
                    }
                    assert(entries_valid(t));
                    assert(has_date(pre, date@));
                }
                return Ok(());
            }
            i += 1;
        }
        Ok(())
    }

    /// Removes the entry for `date` when one exists; otherwise a no-op. Any
    /// attachment file the removed entry referenced is the caller's to
    /// reclaim.
    pub fn delete_entry_by_date(&mut self, date: &str)
        requires
            old(self).wf(),
        ensures
            final(self).wf(),
            final(self).sessions() == old(self).sessions(),
            final(self).messages() == old(self).messages(),
            final(self).next_id() == old(self).next_id(),
            !has_date(old(self).entries(), date@) ==> final(self).entries() == old(self).entries(),
            has_date(old(self).entries(), date@) ==> exists|i: int|
                0 <= i < old(self).entries().len() && old(self).entries()[i].date@ == date@
                    && final(self).entries() == old(self).entries().remove(i),
            !has_date(final(self).entries(), date@),
    {
        let n = self.entry_vec.len();
        let mut i: usize = 0;
        while i < n
            invariant
                0 <= i <= n,
                n == self.entry_vec@.len(),
                self.entry_vec@ == old(self).entry_vec@,
                self.session_vec@ == old(self).session_vec@,
                self.message_vec@ == old(self).message_vec@,
                self.next_message_id == old(self).next_message_id,
                forall|j: int| 0 <= j < i ==> (#[trigger] self.entry_vec@[j]).date@ != date@,
            decreases n - i,
        {
            if str_eq(self.entry_vec[i].date.as_str(), date) {
                let ghost pre = self.entry_vec@;
                proof {
                    pre.remove_ensures(i as int);
                }
                self.entry_vec.remove(i);
                proof {
                    let t = self.entry_vec@;
                    assert forall|k: int| 0 <= k < t.len() implies (#[trigger] t[k]).date@
                        != date@ by {
                        let ko: int = if k < i { k } else { k + 1 };
                        assert(t[k] == pre[ko]);
                        if pre[ko].date@ == date@ {
                            lemma_sorted_dates_unique(pre, i as int, ko);
                        }
                    }
                    assert forall|p: int, q: int| 0 <= p < q < t.len() implies lex_lt(
                        t[q].date@,
                        t[p].date@,
                    ) by {
                        let po: int = if p < i { p } else { p + 1 };
                        let qo: int = if q < i { q } else { q + 1 };
                        assert(t[p] == pre[po] && t[q] == pre[qo]);
                        assert(lex_lt(pre[qo].date@, pre[po].date@));
                    }
                    assert(entries_valid(t)) by {
                        assert forall|k: int| 0 <= k < t.len() implies valid_date(
                            (#[trigger] t[k]).date@,
                        ) && title_present(t[k].title) by {
                            let ko: int = if k < i { k } else { k + 1 };
                            assert(t[k] == pre[ko]);
                        }
                    }
                    assert(has_date(pre, date@));
                }
                return ;
            }
            i += 1;
        }
    }
}

/// Round trip: for any valid new entry, adding it and then looking its date
/// up yields exactly the inserted entry, unchanged. Stated against the
/// contracts of `add_entry` (which places the entry at some position) and
/// `get_entry_by_date` (whose result must match the date): the sorted,
/// duplicate-free relation leaves the lookup no answer but the entry itself.
pub proof fn lemma_add_then_get_round_trip(
    pre: Seq<Entry>,
    post: Seq<Entry>,
    e: Entry,
    i: int,
    r: Option<Entry>,
)
    requires
        entries_sorted(post),
        0 <= i <= pre.len(),
        post == pre.insert(i, e),
        (match r {
            Some(x) => exists|k: int| 0 <= k < post.len() && post[k] == x && x.date@ == e.date@,
            None => !has_date(post, e.date@),
        }),
    ensures
        r == Some(e),
{
    pre.insert_ensures(i, e);
    assert(post[i] == e);
    assert(has_date(post, e.date@));
    match r {
        Some(x) => {
            let k = choose|k: int| 0 <= k < post.len() && post[k] == x && x.date@ == e.date@;
            lemma_sorted_dates_unique(post, k, i);
        },
        None => {
            assert(false);
        },
    }
}

/// Adding an entry whose date is already present always fails with
/// `Conflict` and leaves the store unchanged, whatever the entry's other
/// fields hold. This is forced by `add_entry`'s contract together with the
/// store invariant that every resident date is valid.
pub proof fn lemma_add_duplicate_is_conflict(j: Journal, e: Entry, r: Result<(), StoreError>)
    requires
        j.wf(),
        has_date(j.entries(), e.date@),
        // everything add_entry's contract allows of a call on a store equal to `j`:
        (r is Ok <==> (valid_date(e.date@) && !has_date(j.entries(), e.date@) && title_present(
            e.title,
        ))),
        valid_date(e.date@) && has_date(j.entries(), e.date@) ==> r == Err::<(), StoreError>(
            StoreError::Conflict,
        ),
        !valid_date(e.date@) ==> r == Err::<(), StoreError>(StoreError::InvalidInput),
    ensures
        r == Err::<(), StoreError>(StoreError::Conflict),
{
    let i = choose|i: int| 0 <= i < j.entries().len() && j.entries()[i].date@ == e.date@;
    assert(valid_date(j.entries()[i].date@));
}

/// The derived-title rule: the first 50 Unicode scalar values of the
/// message, with a literal `...` appended when the message is longer.
pub open spec fn title_of(content: Seq<char>) -> Seq<char> {
    if content.len() <= 50 {
        content
    } else {
        content.take(50) + seq!['.', '.', '.']
    }
}

/// How an append changes the session title: the first user message of a
/// session whose title is absent or empty sets it; an existing non-empty
/// title is never overwritten, by messages of either sender.
pub open spec fn title_after(
    old_title: Option<Seq<char>>,
    sender: Seq<char>,
    content: Seq<char>,
) -> Option<Seq<char>> {
    if sender == "user"@ && (match old_title {
        None => true,
        Some(t) => t.len() == 0,
    }) {
        Some(title_of(content))
    } else {
        old_title
    }
}

/// The messages that belong to session `sid`, in stored order.
pub open spec fn messages_for(m: Seq<ChatMessage>, sid: Seq<char>) -> Seq<ChatMessage> {
    m.filter(|x: ChatMessage| x.session_id@ == sid)
}

/// The messages that survive deleting session `sid`, in stored order.
pub open spec fn messages_not_for(m: Seq<ChatMessage>, sid: Seq<char>) -> Seq<ChatMessage> {
    m.filter(|x: ChatMessage| x.session_id@ != sid)
}

/// Builds the derived session title from a first user message.
pub fn derive_title(content: &str) -> (r: String)
    ensures
        r@ == title_of(content@),
{
    let n = content.unicode_len();
    if n <= 50 {
        String::from_str(content)
    } else {
        let prefix = content.substring_char(0, 50);
        let mut t = String::from_str(prefix);
        t.append("...");
        proof {
            reveal_strlit("...");
            assert(t@ =~= content@.take(50) + seq!['.', '.', '.']);
        }
        t
    }
}

/// Unfolds `messages_for` over a trailing element.
proof fn lemma_messages_for_push(m: Seq<ChatMessage>, x: ChatMessage, sid: Seq<char>)
    ensures
        messages_for(m.push(x), sid) == if x.session_id@ == sid {
            messages_for(m, sid).push(x)
        } else {
            messages_for(m, sid)
        },
{
    reveal(Seq::filter);
    assert(m.push(x).drop_last() =~= m);
}

/// Unfolds `messages_not_for` over a trailing element.
proof fn lemma_messages_not_for_push(m: Seq<ChatMessage>, x: ChatMessage, sid: Seq<char>)
    ensures
        messages_not_for(m.push(x), sid) == if x.session_id@ != sid {
            messages_not_for(m, sid).push(x)
        } else {
            messages_not_for(m, sid)
        },
{
    reveal(Seq::filter);
    assert(m.push(x).drop_last() =~= m);
}

/// Every message that survives a cascade delete is one of the prior
/// messages, and the surviving relation keeps their order and the
/// uniqueness of their ids.
proof fn lemma_messages_not_for_wf(m: Seq<ChatMessage>, sid: Seq<char>)
    ensures
        forall|i: int|
            0 <= i < messages_not_for(m, sid).len() ==> m.contains(
                #[trigger] messages_not_for(m, sid)[i],
            ),
        messages_sorted(m) ==> messages_sorted(messages_not_for(m, sid)),
        (forall|i: int, j: int|
            0 <= i < j < m.len() ==> (#[trigger] m[i].id) != (#[trigger] m[j].id)) ==> (forall|
            i: int,
            j: int,
        |
            0 <= i < j < messages_not_for(m, sid).len() ==> (#[trigger] messages_not_for(
                m,
                sid,
            )[i].id) != (#[trigger] messages_not_for(m, sid)[j].id)),
    decreases m.len(),
{
    if m.len() == 0 {
        reveal(Seq::filter);
    } else {
        let dl = m.drop_last();
        let x = m.last();
        lemma_messages_not_for_wf(dl, sid);
        lemma_messages_not_for_push(dl, x, sid);
        assert(dl.push(x) =~= m);
        let f = messages_not_for(m, sid);
        let fd = messages_not_for(dl, sid);
        assert forall|i: int| 0 <= i < f.len() implies m.contains(#[trigger] f[i]) by {
            if i < fd.len() {
                assert(dl.contains(fd[i]));
                let k = choose|k: int| 0 <= k < dl.len() && dl[k] == fd[i];
                assert(m[k] == f[i]);
            } else {
                assert(f[i] == x);
                assert(m[m.len() - 1] == x);
            }
        }
        if messages_sorted(m) {
            assert(messages_sorted(dl));
            assert forall|i: int, j: int| 0 <= i < j < f.len() implies msg_before(
                #[trigger] f[i],
                #[trigger] f[j],
            ) by {
                if j < fd.len() {
                } else if x.session_id@ != sid && j == fd.len() {
                    assert(f[j] == x);
                    assert(dl.contains(fd[i]));
                    let k = choose|k: int| 0 <= k < dl.len() && dl[k] == fd[i];
                    assert(msg_before(m[k], m[m.len() - 1]));
                }
            }
        }
        if forall|i: int, j: int|
            0 <= i < j < m.len() ==> (#[trigger] m[i].id) != (#[trigger] m[j].id) {
            assert forall|i: int, j: int|
                0 <= i < j < m.len() - 1 implies (#[trigger] dl[i].id) != (#[trigger] dl[j].id) by {
                assert(m[i].id != m[j].id);
            }
            assert forall|i: int, j: int| 0 <= i < j < f.len() implies (#[trigger] f[i].id) != (
            #[trigger] f[j].id) by {
                if j < fd.len() {
                } else if x.session_id@ != sid && j == fd.len() {
                    assert(f[j] == x);
                    assert(dl.contains(fd[i]));
                    let k = choose|k: int| 0 <= k < dl.len() && dl[k] == fd[i];
                    assert(m[k].id != m[m.len() - 1].id);
                }
            }
        }
    }
}

/// A session that does not exist has no messages: `messages_for` an id
/// absent from the session relation is empty whenever every message
/// references an existing session.
proof fn lemma_messages_for_absent(m: Seq<ChatMessage>, sess: Seq<ChatSession>, sid: Seq<char>)
    requires
        forall|i: int| 0 <= i < m.len() ==> has_session(sess, (#[trigger] m[i]).session_id@),
        !has_session(sess, sid),
    ensures
        messages_for(m, sid) == Seq::<ChatMessage>::empty(),
    decreases m.len(),
{
    if m.len() == 0 {
        reveal(Seq::filter);
        assert(messages_for(m, sid) =~= Seq::<ChatMessage>::empty());
    } else {
        let dl = m.drop_last();
        let x = m.last();
        assert(x == m[m.len() - 1]);
        assert(x.session_id@ != sid);
        assert(forall|i: int|
            0 <= i < dl.len() ==> has_session(sess, (#[trigger] dl[i]).session_id@)) by {
            assert(forall|i: int| 0 <= i < dl.len() ==> dl[i] == m[i]);
        }
        lemma_messages_for_absent(dl, sess, sid);
        lemma_messages_for_push(dl, x, sid);
        assert(dl.push(x) =~= m);
    }
}

/// Cascade deletion is exact: after deleting session `sid`, no message of
/// `sid` survives, and the message list of any other session is exactly
/// what it was before.
pub proof fn lemma_cascade_delete(m: Seq<ChatMessage>, sid: Seq<char>, other: Seq<char>)
    requires
        other != sid,
    ensures
        messages_for(messages_not_for(m, sid), sid) == Seq::<ChatMessage>::empty(),
        messages_for(messages_not_for(m, sid), other) == messages_for(m, other),
    decreases m.len(),
{
    if m.len() == 0 {
        reveal(Seq::filter);
        assert(messages_not_for(m, sid) == m);
    } else {
        let dl = m.drop_last();
        let x = m.last();
        lemma_cascade_delete(dl, sid, other);
        lemma_messages_not_for_push(dl, x, sid);
        assert(dl.push(x) =~= m);
        if x.session_id@ != sid {
            lemma_messages_for_push(messages_not_for(dl, sid), x, sid);
            lemma_messages_for_push(messages_not_for(dl, sid), x, other);
            lemma_messages_for_push(dl, x, other);
        } else {
            lemma_messages_for_push(dl, x, other);
        }
    }
}

/// Removing a session keeps the relation sorted and its ids unique, and
/// changes exactly one id's presence.
proof fn lemma_sessions_remove(pre: Seq<ChatSession>, i: int)
    requires
        sessions_sorted(pre),
        session_ids_unique(pre),
        0 <= i < pre.len(),
    ensures
        sessions_sorted(pre.remove(i)),
        session_ids_unique(pre.remove(i)),
        forall|x: Seq<char>| has_session(pre.remove(i), x) ==> has_session(pre, x),
        forall|x: Seq<char>|
            has_session(pre, x) && x != pre[i].id@ ==> has_session(pre.remove(i), x),
        !has_session(pre.remove(i), pre[i].id@),
{
    pre.remove_ensures(i);
    let t = pre.remove(i);
    assert forall|p: int, q: int| 0 <= p < q < t.len() implies lex_le(
        t[q].last_modified_at@,
        t[p].last_modified_at@,
    ) && t[p].id@ != t[q].id@ by {
        let po: int = if p < i { p } else { p + 1 };
        let qo: int = if q < i { q } else { q + 1 };
        assert(t[p] == pre[po] && t[q] == pre[qo]);
    }
    assert forall|x: Seq<char>| has_session(t, x) implies has_session(pre, x) by {
        let k = choose|k: int| 0 <= k < t.len() && t[k].id@ == x;
        let ko: int = if k < i { k } else { k + 1 };
        assert(t[k] == pre[ko]);
    }
    assert forall|x: Seq<char>| has_session(pre, x) && x != pre[i].id@ implies has_session(
        t,
        x,
    ) by {
        let k = choose|k: int| 0 <= k < pre.len() && pre[k].id@ == x;
        if k < i {
            assert(t[k] == pre[k]);
        } else {
            assert(k > i);
            assert(t[k - 1] == pre[k]);
        }
    }
    if has_session(t, pre[i].id@) {
        let k = choose|k: int| 0 <= k < t.len() && t[k].id@ == pre[i].id@;
        let ko: int = if k < i { k } else { k + 1 };
        assert(t[k] == pre[ko]);
        assert(pre[ko].id@ != pre[i].id@);
    }
}

/// Inserting a session at its position in the descending order of last
/// modification keeps the relation sorted and its ids unique, and adds
/// exactly one id.
proof fn lemma_sessions_insert(sv: Seq<ChatSession>, c: ChatSession, p: int)
    requires
        sessions_sorted(sv),
        session_ids_unique(sv),
        0 <= p <= sv.len(),
        forall|j: int|
            0 <= j < p ==> lex_lt(c.last_modified_at@, (#[trigger] sv[j]).last_modified_at@),
        p < sv.len() ==> lex_le(sv[p].last_modified_at@, c.last_modified_at@),
        !has_session(sv, c.id@),
    ensures
        sessions_sorted(sv.insert(p, c)),
        session_ids_unique(sv.insert(p, c)),
        forall|x: Seq<char>| has_session(sv.insert(p, c), x) <==> has_session(sv, x) || x == c.id@,
{
    sv.insert_ensures(p, c);
    let t = sv.insert(p, c);
    assert forall|a: int, b: int| 0 <= a < b < t.len() implies lex_le(
        t[b].last_modified_at@,
        t[a].last_modified_at@,
    ) by {
        if a < p && b == p {
            assert(t[a] == sv[a] && t[b] == c);
        } else if a == p && b > p {
            assert(t[a] == c && t[b] == sv[b - 1]);
            if b - 1 > p {
                lemma_lex_le_transitive(
                    sv[b - 1].last_modified_at@,
                    sv[p].last_modified_at@,
                    c.last_modified_at@,
                );
            }
        } else if a < p && b > p {
            assert(t[a] == sv[a] && t[b] == sv[b - 1]);
        }
    }
    assert forall|a: int, b: int| 0 <= a < b < t.len() implies (#[trigger] t[a].id@) != (
    #[trigger] t[b].id@) by {
        if a == p {
            assert(t[b] == sv[b - 1]);
            assert(sv[b - 1].id@ != c.id@);
        } else if b == p {
            let av: int = if a < p { a } else { a + 1 };
            assert(t[a] == sv[av]);
            assert(sv[av].id@ != c.id@);
        } else {
            let av: int = if a < p { a } else { a - 1 };
            let bv: int = if b < p { b } else { b - 1 };
            assert(t[a] == sv[av] && t[b] == sv[bv]);
        }
    }
    assert forall|x: Seq<char>| has_session(t, x) implies has_session(sv, x) || x == c.id@ by {
        let k = choose|k: int| 0 <= k < t.len() && t[k].id@ == x;
        if k != p {
            let ko: int = if k < p { k } else { k - 1 };
            assert(t[k] == sv[ko]);
        }
    }
    assert forall|x: Seq<char>| has_session(sv, x) || x == c.id@ implies has_session(t, x) by {
        if has_session(sv, x) {
            let k = choose|k: int| 0 <= k < sv.len() && sv[k].id@ == x;
            let kn: int = if k < p { k } else { k + 1 };
            assert(t[kn] == sv[k]);
        } else {
            assert(t[p] == c);
        }
    }
}

impl Journal {
    /// Finds the index of the session with the given id.
    fn find_session_index(&self, session_id: &str) -> (r: Option<usize>)
        ensures
            match r {
                Some(i) => i < self.sessions().len() && self.sessions()[i as int].id@
                    == session_id@,
                None => !has_session(self.sessions(), session_id@),
            },
    {
        let n = self.session_vec.len();
        let mut i: usize = 0;
        while i < n
            invariant
                0 <= i <= n,
                n == self.session_vec@.len(),
                forall|j: int| 0 <= j < i ==> (#[trigger] self.session_vec@[j]).id@ != session_id@,
            decreases n - i,
        {
            if str_eq(self.session_vec[i].id.as_str(), session_id) {
                return Some(i);
            }
            i += 1;
        }
        None
    }

    /// Returns every chat session, most recently modified first.
    pub fn get_all_chat_sessions(&self) -> (r: Vec<ChatSession>)
        requires
            self.wf(),
        ensures
            r@ == self.sessions(),
    {
        let n = self.session_vec.len();
        let mut out: Vec<ChatSession> = Vec::new();
        let mut i: usize = 0;
        while i < n
            invariant
                0 <= i <= n,
                n == self.session_vec@.len(),
                out@.len() == i,
                forall|j: int| 0 <= j < i ==> out@[j] == self.session_vec@[j],
            decreases n - i,
        {
            out.push(self.session_vec[i].clone());
            i += 1;
        }
        proof {
            assert(out@ =~= self.sessions());
        }
        out
    }

    /// Returns the messages of one session, ordered by timestamp ascending
    /// with ties broken by insertion order.
    pub fn get_messages_for_session(&self, session_id: &str) -> (r: Vec<ChatMessage>)
        requires
            self.wf(),
        ensures
            r@ == messages_for(self.messages(), session_id@),
    {
        let n = self.message_vec.len();
        let mut out: Vec<ChatMessage> = Vec::new();
        let mut i: usize = 0;
        proof {
            reveal(Seq::filter);
            assert(self.message_vec@.subrange(0, 0) =~= Seq::<ChatMessage>::empty());
        }
        while i < n
            invariant
                0 <= i <= n,
                n == self.message_vec@.len(),
                out@ == messages_for(self.message_vec@.subrange(0, i as int), session_id@),
            decreases n - i,
        {
            proof {
                let pre = self.message_vec@.subrange(0, i as int);
                assert(self.message_vec@.subrange(0, i as int + 1) =~= pre.push(
                    self.message_vec@[i as int],
                ));
                lemma_messages_for_push(pre, self.message_vec@[i as int], session_id@);
            }
            if str_eq(self.message_vec[i].session_id.as_str(), session_id) {
                out.push(self.message_vec[i].clone());
            }
            i += 1;
        }
        proof {
            assert(self.message_vec@.subrange(0, n as int) =~= self.message_vec@);
        }
        out
    }

    /// Deletes the session with the given id, cascading to every message
    /// that references it. Deleting an unknown id is a no-op, not an error.
    pub fn delete_chat_session(&mut self, session_id: &str)
        requires
            old(self).wf(),
        ensures
            final(self).wf(),
            final(self).entries() == old(self).entries(),
            final(self).next_id() == old(self).next_id(),
            !has_session(old(self).sessions(), session_id@) ==> final(self).sessions() == old(
                self,
            ).sessions() && final(self).messages() == old(self).messages(),
            has_session(old(self).sessions(), session_id@) ==> exists|i: int|
                0 <= i < old(self).sessions().len() && old(self).sessions()[i].id@ == session_id@
                    && final(self).sessions() == old(self).sessions().remove(i),
            has_session(old(self).sessions(), session_id@) ==> final(self).messages()
                == messages_not_for(old(self).messages(), session_id@),
            !has_session(final(self).sessions(), session_id@),
            messages_for(final(self).messages(), session_id@) == Seq::<ChatMessage>::empty(),
    {
        let si = match self.find_session_index(session_id) {
            Some(i) => i,
            None => {
                proof {
                    lemma_messages_for_absent(
                        self.message_vec@,
                        self.session_vec@,
                        session_id@,
                    );
                }
                return ;
            },
        };
        let ghost pre_sessions = self.session_vec@;
        let ghost pre_messages = self.message_vec@;
        proof {
            lemma_sessions_remove(pre_sessions, si as int);
        }
        self.session_vec.remove(si);
        let n = self.message_vec.len();
        let mut out: Vec<ChatMessage> = Vec::new();
        let mut i: usize = 0;
        proof {
            reveal(Seq::filter);
            assert(pre_messages.subrange(0, 0) =~= Seq::<ChatMessage>::empty());
        }
        while i < n
            invariant
                0 <= i <= n,
                n == pre_messages.len(),
                self.message_vec@ == pre_messages,
                out@ == messages_not_for(pre_messages.subrange(0, i as int), session_id@),
            decreases n - i,
        {
            proof {
                let pre = pre_messages.subrange(0, i as int);
                assert(pre_messages.subrange(0, i as int + 1) =~= pre.push(
                    pre_messages[i as int],
                ));
                lemma_messages_not_for_push(pre, pre_messages[i as int], session_id@);
            }
            if !str_eq(self.message_vec[i].session_id.as_str(), session_id) {
                out.push(self.message_vec[i].clone());
            }
            i += 1;
        }
        proof {
            assert(pre_messages.subrange(0, n as int) =~= pre_messages);
        }
        self.message_vec = out;
        proof {
            lemma_messages_not_for_wf(pre_messages, session_id@);
            let f = self.message_vec@;
            assert forall|k: int| 0 <= k < f.len() implies 0 <= (#[trigger] f[k]).id < self.next_id()
                && has_session(self.session_vec@, f[k].session_id@) && is_sender(f[k].sender@)
                && f[k].content@.len() > 0 by {
                assert(pre_messages.contains(f[k]));
                let w = choose|w: int| 0 <= w < pre_messages.len() && pre_messages[w] == f[k];
                assert(pre_messages[w].session_id@ != session_id@);
                assert(has_session(pre_sessions, pre_messages[w].session_id@));
            }
            lemma_cascade_delete(pre_messages, session_id@, session_id@ + seq![' ']);
            assert(session_id@ + seq![' '] != session_id@) by {
                assert((session_id@ + seq![' ']).len() != session_id@.len());
            }
        }
    }
}

/// Inserting a message after every message with an equal-or-earlier
/// timestamp, with an id larger than every resident id, keeps the relation
/// totally ordered and its ids unique.
proof fn lemma_messages_insert(m: Seq<ChatMessage>, x: ChatMessage, k: int)
    requires
        messages_sorted(m),
        forall|i: int, j: int| 0 <= i < j < m.len() ==> (#[trigger] m[i].id) != (#[trigger] m[j].id),
        0 <= k <= m.len(),
        forall|j: int| 0 <= j < k ==> lex_le((#[trigger] m[j]).timestamp@, x.timestamp@),
        k < m.len() ==> lex_lt(x.timestamp@, m[k].timestamp@),
        forall|j: int| 0 <= j < m.len() ==> (#[trigger] m[j]).id < x.id,
    ensures
        messages_sorted(m.insert(k, x)),
        forall|i: int, j: int|
            0 <= i < j < m.insert(k, x).len() ==> (#[trigger] m.insert(k, x)[i].id) != (
            #[trigger] m.insert(k, x)[j].id),
    decreases m.len(),
{
    m.insert_ensures(k, x);
    let t = m.insert(k, x);
    assert forall|a: int, b: int| 0 <= a < b < t.len() implies msg_before(
        #[trigger] t[a],
        #[trigger] t[b],
    ) && t[a].id != t[b].id by {
        if a < k && b == k {
            assert(t[a] == m[a] && t[b] == x);
        } else if a == k && b > k {
            assert(t[a] == x && t[b] == m[b - 1]);
            if b - 1 > k {
                assert(msg_before(m[k], m[b - 1]));
                if m[k].timestamp@ == m[b - 1].timestamp@ {
                } else {
                    lemma_lex_lt_transitive(
                        x.timestamp@,
                        m[k].timestamp@,
                        m[b - 1].timestamp@,
                    );
                }
            }
        } else if a < k && b > k {
            assert(t[a] == m[a] && t[b] == m[b - 1]);
        }
    }
}

/// One message was inserted at its ordered position `k`: it carries the
/// next id, the given fields, and timestamp `ts`.
pub open spec fn message_inserted(
    pre: Journal,
    post: Journal,
    sid: Seq<char>,
    sender: Seq<char>,
    content: Seq<char>,
    ts: Seq<char>,
) -> bool {
    exists|k: int, msg: ChatMessage|
        {
            &&& 0 <= k <= pre.messages().len()
            &&& post.messages() == #[trigger] pre.messages().insert(k, msg)
            &&& msg.id == pre.next_id()
            &&& msg.session_id@ == sid
            &&& msg.sender@ == sender
            &&& msg.content@ == content
            &&& msg.timestamp@ == ts
        }
}

/// The owning session was re-filed under timestamp `ts`: same id and
/// creation time, `last_modified_at` advanced to `ts`, and the title
/// derived by the first-user-message rule.
pub open spec fn session_refreshed(
    pre: Journal,
    post: Journal,
    sid: Seq<char>,
    sender: Seq<char>,
    content: Seq<char>,
    ts: Seq<char>,
) -> bool {
    exists|si: int, p: int, upd: ChatSession|
        {
            &&& 0 <= si < pre.sessions().len()
            &&& pre.sessions()[si].id@ == sid
            &&& 0 <= p <= pre.sessions().len() - 1
            &&& post.sessions() == #[trigger] pre.sessions().remove(si).insert(p, upd)
            &&& upd.id@ == sid
            &&& upd.created_at@ == pre.sessions()[si].created_at@
            &&& upd.last_modified_at@ == ts
            &&& opt_string_view(upd.title) == title_after(
                opt_string_view(pre.sessions()[si].title),
                sender,
                content,
            )
        }
}

impl Journal {
    /// Inserts a new, empty, untitled chat session with the given id and
    /// creation timestamp. Fails with `Conflict` when the id is already in
    /// use.
    pub fn create_chat_session_with(&mut self, id: String, now: String) -> (r: Result<
        String,
        StoreError,
    >)
        requires
            old(self).wf(),
        ensures
            final(self).wf(),
            final(self).entries() == old(self).entries(),
            final(self).messages() == old(self).messages(),
            final(self).next_id() == old(self).next_id(),
            has_session(old(self).sessions(), id@) ==> r == Err::<String, StoreError>(
                StoreError::Conflict,
            ) && final(self).sessions() == old(self).sessions(),
            !has_session(old(self).sessions(), id@) ==> (match r {
                Ok(rid) => rid@ == id@ && exists|p: int|
                    0 <= p <= old(self).sessions().len() && final(self).sessions() == old(
                        self,
                    ).sessions().insert(
                        p,
                        (ChatSession {
                            id: id,
                            created_at: now,
                            last_modified_at: now,
                            title: None,
                        }),
                    ),
                Err(_) => false,
            }),
            r is Ok <==> !has_session(old(self).sessions(), id@),
    {
        if self.find_session_index(id.as_str()).is_some() {
            return Err(StoreError::Conflict);
        }
        let rid = id.clone();
        let c = ChatSession {
            id,
            created_at: now.clone(),
            last_modified_at: now,
            title: None,
        };
        let n = self.session_vec.len();
        let mut p: usize = 0;
        while p < n
            invariant
                0 <= p <= n,
                n == self.session_vec@.len(),
                forall|j: int|
                    0 <= j < p ==> lex_lt(
                        c.last_modified_at@,
                        (#[trigger] self.session_vec@[j]).last_modified_at@,
                    ),
            decreases n - p,
        {
            if !str_lt(c.last_modified_at.as_str(), self.session_vec[p].last_modified_at.as_str()) {
                break;
            }
            p += 1;
        }
        proof {
            if p < self.session_vec@.len() {
                lemma_lex_lt_total(
                    c.last_modified_at@,
                    self.session_vec@[p as int].last_modified_at@,
                );
            }
            lemma_sessions_insert(self.session_vec@, c, p as int);
        }
        self.session_vec.insert(p, c);
        proof {
            assert forall|k: int| 0 <= k < self.message_vec@.len() implies has_session(
                self.session_vec@,
                (#[trigger] self.message_vec@[k]).session_id@,
            ) by {}
        }
        Ok(rid)
    }

    /// Appends a message to a session at the given timestamp, advancing the
    /// session's last modification time and deriving its title from the
    /// first user message. Fails with `InvalidInput` when the sender is
    /// neither `user` nor `assistant` or the content is empty, with
    /// `NotFound` when no session has the given id, and with `StorageIO`
    /// when the message id space is exhausted; nothing changes on failure.
    pub fn save_chat_message_at(
        &mut self,
        session_id: &str,
        sender: &str,
        content: &str,
        now: &str,
    ) -> (r: Result<(), StoreError>)
        requires
            old(self).wf(),
        ensures
            final(self).wf(),
            final(self).entries() == old(self).entries(),
            r is Ok <==> (is_sender(sender@) && content@.len() > 0 && has_session(
                old(self).sessions(),
                session_id@,
            ) && old(self).next_id() < i64::MAX),
            !(is_sender(sender@) && content@.len() > 0) ==> r == Err::<(), StoreError>(
                StoreError::InvalidInput,
            ) && *final(self) == *old(self),
            is_sender(sender@) && content@.len() > 0 && !has_session(
                old(self).sessions(),
                session_id@,
            ) ==> r == Err::<(), StoreError>(StoreError::NotFound) && *final(self) == *old(self),
            is_sender(sender@) && content@.len() > 0 && has_session(
                old(self).sessions(),
                session_id@,
            ) && old(self).next_id() == i64::MAX ==> r == Err::<(), StoreError>(
                StoreError::StorageIO,
            ) && *final(self) == *old(self),
            r is Ok ==> final(self).next_id() == old(self).next_id() + 1,
            r is Ok ==> message_inserted(
                *old(self),
                *final(self),
                session_id@,
                sender@,
                content@,
                now@,
            ),
            r is Ok ==> session_refreshed(
                *old(self),
                *final(self),
                session_id@,
                sender@,
                content@,
                now@,
            ),
    {
        let sender_ok = str_eq(sender, "user") || str_eq(sender, "assistant");
        if !sender_ok || content.unicode_len() == 0 {
            return Err(StoreError::InvalidInput);
        }
        let si = match self.find_session_index(session_id) {
            Some(i) => i,
            None => {
                return Err(StoreError::NotFound);
            },
        };
        if self.next_message_id == i64::MAX {
            return Err(StoreError::StorageIO);
        }
        let ghost pre_sessions = self.session_vec@;
        let ghost pre_messages = self.message_vec@;
        // Insert the message at its ordered position.
        let msg = ChatMessage {
            id: self.next_message_id,
            session_id: String::from_str(session_id),
            sender: String::from_str(sender),
            content: String::from_str(content),
            timestamp: String::from_str(now),
        };
        let mn = self.message_vec.len();
        let mut k: usize = 0;
        while k < mn
            invariant
                0 <= k <= mn,
                mn == self.message_vec@.len(),
                forall|j: int|
                    0 <= j < k ==> lex_le(
                        (#[trigger] self.message_vec@[j]).timestamp@,
                        msg.timestamp@,
                    ),
            decreases mn - k,
        {
            if !str_le(self.message_vec[k].timestamp.as_str(), now) {
                break;
            }
            k += 1;
        }
        proof {
            if k < self.message_vec@.len() {
                lemma_lex_lt_total(
                    msg.timestamp@,
                    self.message_vec@[k as int].timestamp@,
                );
            }
            lemma_messages_insert(self.message_vec@, msg, k as int);
        }
        self.message_vec.insert(k, msg);
        self.next_message_id = self.next_message_id + 1;
        // Refresh the owning session: new timestamp, possibly a new title.
        proof {
            lemma_sessions_remove(pre_sessions, si as int);
        }
        let old_sess = self.session_vec.remove(si);
        let needs_title = str_eq(sender, "user") && (match &old_sess.title {
            Some(t) => t.as_str().unicode_len() == 0,
            None => true,
        });
        let upd = ChatSession {
            id: old_sess.id,
            created_at: old_sess.created_at,
            last_modified_at: String::from_str(now),
            title: if needs_title {
                Some(derive_title(content))
            } else {
                old_sess.title
            },
        };
        let sn = self.session_vec.len();
        let mut p: usize = 0;
        while p < sn
            invariant
                0 <= p <= sn,
                sn == self.session_vec@.len(),
                self.session_vec@ == pre_sessions.remove(si as int),
                forall|j: int|
                    0 <= j < p ==> lex_lt(
                        upd.last_modified_at@,
                        (#[trigger] self.session_vec@[j]).last_modified_at@,
                    ),
            decreases sn - p,
        {
            if !str_lt(now, self.session_vec[p].last_modified_at.as_str()) {
                break;
            }
            p += 1;
        }
        proof {
            if p < self.session_vec@.len() {
                lemma_lex_lt_total(
                    upd.last_modified_at@,
                    self.session_vec@[p as int].last_modified_at@,
                );
            }
            lemma_sessions_insert(self.session_vec@, upd, p as int);
        }
        self.session_vec.insert(p, upd);
        proof {
            // Every message still references an existing session.
            assert forall|i: int| 0 <= i < self.message_vec@.len() implies has_session(
                self.session_vec@,
                (#[trigger] self.message_vec@[i]).session_id@,
            ) by {
                let mv = self.message_vec@;
                if mv[i] == msg {
                    assert(has_session(self.session_vec@, session_id@));
                } else {
                    pre_messages.insert_ensures(k as int, msg);
                    let io: int = if i < k { i } else { i - 1 };
                    assert(mv[i] == pre_messages[io]);
                    assert(has_session(pre_sessions, pre_messages[io].session_id@));
                }
            }
            assert(self.message_vec@ == pre_messages.insert(k as int, msg));
            assert(self.session_vec@ == pre_sessions.remove(si as int).insert(p as int, upd));
        }
        Ok(())
    }
}

impl Journal {
    /// Creates an entry stamped with the caller's current local calendar
    /// date, delegating to `add_entry`, whose failure modes it inherits:
    /// whatever date the clock yields, either one entry carrying the given
    /// fields was inserted under a fresh valid date, or the store is
    /// unchanged and the error tells why.
    pub fn create_entry_with_now(
        &mut self,
        title: &str,
        content: Option<&str>,
        password: Option<&str>,
        image: Option<&str>,
    ) -> (r: Result<(), StoreError>)
        requires
            old(self).wf(),
        ensures
            final(self).wf(),
            final(self).sessions() == old(self).sessions(),
            final(self).messages() == old(self).messages(),
            final(self).next_id() == old(self).next_id(),
            r is Ok ==> exists|i: int, e: Entry|
                {
                    &&& 0 <= i <= old(self).entries().len()
                    &&& final(self).entries() == old(self).entries().insert(i, e)
                    &&& valid_date(e.date@)
                    &&& !has_date(old(self).entries(), e.date@)
                    &&& opt_string_view(e.title) == Some(title@)
                    &&& opt_string_view(e.content) == opt_str_view(content)
                    &&& opt_string_view(e.password) == opt_str_view(password)
                    &&& opt_string_view(e.image) == opt_str_view(image)
                },
            r is Ok ==> title@.len() > 0,
            !(r is Ok) ==> final(self).entries() == old(self).entries() && (r == Err::<
                (),
                StoreError,
            >(StoreError::InvalidInput) || r == Err::<(), StoreError>(StoreError::Conflict)),
    {
        let date = crate::platform::today_local();
        let entry = Entry {
            date,
            title: Some(String::from_str(title)),
            content: match content {
                Some(c) => Some(String::from_str(c)),
                None => None,
            },
            password: match password {
                Some(c) => Some(String::from_str(c)),
                None => None,
            },
            image: match image {
                Some(c) => Some(String::from_str(c)),
                None => None,
            },
        };
        self.add_entry(entry)
    }

    /// Creates a new, empty chat session under a fresh random id, stamped
    /// with the current UTC time, and returns the id. A `Conflict` is
    /// possible only if the freshly drawn id is already in use; in
    /// particular, on a store without sessions the call always succeeds.
    pub fn create_new_chat_session(&mut self) -> (r: Result<String, StoreError>)
        requires
            old(self).wf(),
        ensures
            final(self).wf(),
            final(self).entries() == old(self).entries(),
            final(self).messages() == old(self).messages(),
            final(self).next_id() == old(self).next_id(),
            old(self).sessions().len() == 0 ==> r is Ok,
            match r {
                Ok(rid) => rid@.len() == 36 && !has_session(old(self).sessions(), rid@) && exists|
                    p: int,
                    c: ChatSession,
                |
                    {
                        &&& 0 <= p <= old(self).sessions().len()
                        &&& final(self).sessions() == old(self).sessions().insert(p, c)
                        &&& c.id@ == rid@
                        &&& c.created_at@ == c.last_modified_at@
                        &&& c.title is None
                    },
                Err(e) => e == StoreError::Conflict && final(self).sessions() == old(
                    self,
                ).sessions(),
            },
    {
        let id = crate::platform::fresh_session_id();
        let now = crate::platform::now_utc_rfc3339();
        self.create_chat_session_with(id, now)
    }

    /// Appends a message stamped with the current UTC time, delegating to
    /// `save_chat_message_at`. Success is owed exactly when the sender tag
    /// and content are acceptable, the session exists, and the id space is
    /// not exhausted; the clock only chooses the timestamp.
    pub fn save_chat_message(&mut self, session_id: &str, sender: &str, content: &str) -> (r:
        Result<(), StoreError>)
        requires
            old(self).wf(),
        ensures
            final(self).wf(),
            final(self).entries() == old(self).entries(),
            r is Ok <==> (is_sender(sender@) && content@.len() > 0 && has_session(
                old(self).sessions(),
                session_id@,
            ) && old(self).next_id() < i64::MAX),
            !(is_sender(sender@) && content@.len() > 0) ==> r == Err::<(), StoreError>(
                StoreError::InvalidInput,
            ) && *final(self) == *old(self),
            is_sender(sender@) && content@.len() > 0 && !has_session(
                old(self).sessions(),
                session_id@,
            ) ==> r == Err::<(), StoreError>(StoreError::NotFound) && *final(self) == *old(self),
            is_sender(sender@) && content@.len() > 0 && has_session(
                old(self).sessions(),
                session_id@,
            ) && old(self).next_id() == i64::MAX ==> r == Err::<(), StoreError>(
                StoreError::StorageIO,
            ) && *final(self) == *old(self),
            r is Ok ==> final(self).next_id() == old(self).next_id() + 1,
            r is Ok ==> exists|ts: Seq<char>|
                #![trigger message_inserted(*old(self), *final(self), session_id@, sender@, content@, ts)]
                {
                    &&& message_inserted(
                        *old(self),
                        *final(self),
                        session_id@,
                        sender@,
                        content@,
                        ts,
                    )
                    &&& session_refreshed(
                        *old(self),
                        *final(self),
                        session_id@,
                        sender@,
                        content@,
                        ts,
                    )
                },
    {
        let now = crate::platform::now_utc_rfc3339();
        let r = self.save_chat_message_at(session_id, sender, content, now.as_str());
        proof {
            if r is Ok {
                assert(message_inserted(
                    *old(self),
                    *final(self),
                    session_id@,
                    sender@,
                    content@,
                    now@,
                ));
            }
        }
        r
    }
}

/// The title derivation rule, in full: the first user message of an
/// untitled (absent or empty) session sets the title — verbatim when the
/// message has at most 50 Unicode scalar values, and otherwise to exactly
/// the first 50 scalar values followed by the literal `...` — and once a
/// non-empty title exists, no later message of either sender changes it.
pub proof fn lemma_title_rule(old_title: Option<Seq<char>>, sender: Seq<char>, content: Seq<char>)
    ensures
        sender == "user"@ && (match old_title {
            None => true,
            Some(t) => t.len() == 0,
        }) ==> title_after(old_title, sender, content) == Some(title_of(content)),
        content.len() <= 50 ==> title_of(content) == content,
        content.len() > 50 ==> title_of(content) == content.take(50) + seq!['.', '.', '.']
            && title_of(content).len() == 53,
        (match old_title {
            Some(t) => t.len() > 0,
            None => false,
        }) ==> title_after(old_title, sender, content) == old_title,
        sender != "user"@ ==> title_after(old_title, sender, content) == old_title,
{
}

/// Once a session carries a non-empty title, no later append changes it:
/// for any sender tag, any content, and any outcome that
/// `save_chat_message_at`'s contract allows — success, rejection, or an
/// exhausted id space — every session that still bears the id has exactly
/// the title it had before; only `last_modified_at` may advance.
pub proof fn lemma_title_never_overwritten(
    pre: Journal,
    post: Journal,
    sid: Seq<char>,
    sender: Seq<char>,
    content: Seq<char>,
    ts: Seq<char>,
    r: Result<(), StoreError>,
    si: int,
)
    requires
        pre.wf(),
        0 <= si < pre.sessions().len(),
        pre.sessions()[si].id@ == sid,
        (match opt_string_view(pre.sessions()[si].title) {
            Some(t) => t.len() > 0,
            None => false,
        }),
        // everything the append's contract allows of its outcome:
        r is Ok ==> session_refreshed(pre, post, sid, sender, content, ts),
        !(r is Ok) ==> post == pre,
    ensures
        forall|k: int|
            0 <= k < post.sessions().len() && (#[trigger] post.sessions()[k]).id@ == sid
                ==> opt_string_view(post.sessions()[k].title) == opt_string_view(
                pre.sessions()[si].title,
            ),
{
    if r is Ok {
        let (si2, p, upd) = choose|si2: int, p: int, upd: ChatSession|
            {
                &&& 0 <= si2 < pre.sessions().len()
                &&& pre.sessions()[si2].id@ == sid
                &&& 0 <= p <= pre.sessions().len() - 1
                &&& post.sessions() == pre.sessions().remove(si2).insert(p, upd)
                &&& upd.id@ == sid
                &&& upd.created_at@ == pre.sessions()[si2].created_at@
                &&& upd.last_modified_at@ == ts
                &&& opt_string_view(upd.title) == title_after(
                    opt_string_view(pre.sessions()[si2].title),
                    sender,
                    content,
                )
            };
        assert(si2 == si);
        let mid = pre.sessions().remove(si);
        pre.sessions().remove_ensures(si);
        mid.insert_ensures(p, upd);
        assert forall|k: int|
            0 <= k < post.sessions().len() && (#[trigger] post.sessions()[k]).id@ == sid implies
            opt_string_view(post.sessions()[k].title) == opt_string_view(
            pre.sessions()[si].title,
        ) by {
            if k != p {
                let km: int = if k < p {
                    k
                } else {
                    k - 1
                };
                assert(post.sessions()[k] == mid[km]);
                let ko: int = if km < si {
                    km
                } else {
                    km + 1
                };
                assert(mid[km] == pre.sessions()[ko]);
                assert(pre.sessions()[ko].id@ != sid);
            } else {
                assert(post.sessions()[k] == upd);
            }
        }
    } else {
        assert forall|k: int|
            0 <= k < post.sessions().len() && (#[trigger] post.sessions()[k]).id@ == sid implies
            opt_string_view(post.sessions()[k].title) == opt_string_view(
            pre.sessions()[si].title,
        ) by {
            assert(pre.sessions()[k].id@ == pre.sessions()[si].id@);
        }
    }
}

/// `msg_before` is transitive.
proof fn lemma_msg_before_transitive(a: ChatMessage, b: ChatMessage, c: ChatMessage)
    requires
        msg_before(a, b),
        msg_before(b, c),
    ensures
        msg_before(a, c),
{
    if lex_lt(a.timestamp@, b.timestamp@) && lex_lt(b.timestamp@, c.timestamp@) {
        lemma_lex_lt_transitive(a.timestamp@, b.timestamp@, c.timestamp@);
    }
}

/// A chain of descending adjacent dates orders every pair of entries.
proof fn lemma_entries_chain(s: Seq<Entry>, i: int, j: int)
    requires
        forall|k: int|
            0 <= k < s.len() - 1 ==> lex_lt((#[trigger] s[k + 1]).date@, s[k].date@),
        0 <= i < j < s.len(),
    ensures
        lex_lt(s[j].date@, s[i].date@),
    decreases j - i,
{
    if j > i + 1 {
        lemma_entries_chain(s, i, j - 1);
        assert(lex_lt(s[(j - 1) + 1].date@, s[j - 1].date@));
        lemma_lex_lt_transitive(s[j].date@, s[j - 1].date@, s[i].date@);
    } else {
        assert(lex_lt(s[i + 1].date@, s[i].date@));
    }
}

/// A chain of non-ascending adjacent modification times orders every pair
/// of sessions.
proof fn lemma_sessions_chain(s: Seq<ChatSession>, i: int, j: int)
    requires
        forall|k: int|
            0 <= k < s.len() - 1 ==> lex_le(
                (#[trigger] s[k + 1]).last_modified_at@,
                s[k].last_modified_at@,
            ),
        0 <= i < j < s.len(),
    ensures
        lex_le(s[j].last_modified_at@, s[i].last_modified_at@),
    decreases j - i,
{
    if j > i + 1 {
        lemma_sessions_chain(s, i, j - 1);
        assert(lex_le(s[(j - 1) + 1].last_modified_at@, s[j - 1].last_modified_at@));
        lemma_lex_le_transitive(
            s[j].last_modified_at@,
            s[j - 1].last_modified_at@,
            s[i].last_modified_at@,
        );
    } else {
        assert(lex_le(s[i + 1].last_modified_at@, s[i].last_modified_at@));
    }
}

/// A chain of adjacent message orderings orders every pair of messages.
proof fn lemma_messages_chain(m: Seq<ChatMessage>, i: int, j: int)
    requires
        forall|k: int| 0 <= k < m.len() - 1 ==> msg_before(#[trigger] m[k], m[k + 1]),
        0 <= i < j < m.len(),
    ensures
        msg_before(m[i], m[j]),
    decreases j - i,
{
    if j > i + 1 {
        lemma_messages_chain(m, i, j - 1);
        assert(msg_before(m[j - 1], m[(j - 1) + 1]));
        lemma_msg_before_transitive(m[i], m[j - 1], m[j]);
    } else {
        assert(msg_before(m[i], m[i + 1]));
    }
}

impl Journal {
    /// Rebuilds a store from rows read back from its backing file: entries
    /// ordered by date descending, sessions by last modification
    /// descending, messages by timestamp then id ascending. Every integrity
    /// rule is checked; rows that do not form a well-formed store are
    /// rejected as `InvalidInput`, never silently repaired.
    pub fn from_rows(
        entries: Vec<Entry>,
        sessions: Vec<ChatSession>,
        messages: Vec<ChatMessage>,
        next_message_id: i64,
    ) -> (r: Result<Journal, StoreError>)
        ensures
            match r {
                Ok(j) => {
                    &&& j.wf()
                    &&& j.entries() == entries@
                    &&& j.sessions() == sessions@
                    &&& j.messages() == messages@
                    &&& j.next_id() == next_message_id as int
                },
                Err(e) => e == StoreError::InvalidInput,
            },
            r is Ok <==> {
                &&& 0 <= next_message_id
                &&& entries_sorted(entries@)
                &&& entries_valid(entries@)
                &&& sessions_sorted(sessions@)
                &&& session_ids_unique(sessions@)
                &&& messages_wf(messages@, sessions@, next_message_id as int)
            },
    {
        if next_message_id < 0 {
            return Err(StoreError::InvalidInput);
        }
        // Entries: valid fields and strictly descending dates.
        let en = entries.len();
        let mut i: usize = 0;
        while i < en
            invariant
                0 <= i <= en,
                en == entries@.len(),
                forall|k: int|
                    0 <= k < i ==> valid_date((#[trigger] entries@[k]).date@) && title_present(
                        entries@[k].title,
                    ),
                forall|k: int|
                    0 <= k < i - 1 ==> lex_lt(
                        (#[trigger] entries@[k + 1]).date@,
                        entries@[k].date@,
                    ),
            decreases en - i,
        {
            if !is_valid_date(entries[i].date.as_str()) {
                proof {
                    assert(!entries_valid(entries@)) by {
                        if entries_valid(entries@) {
                            assert(valid_date(entries@[i as int].date@));
                        }
                    }
                }
                return Err(StoreError::InvalidInput);
            }
            let title_ok = match &entries[i].title {
                Some(t) => t.as_str().unicode_len() > 0,
                None => false,
            };
            if !title_ok {
                proof {
                    assert(!entries_valid(entries@)) by {
                        if entries_valid(entries@) {
                            assert(title_present(entries@[i as int].title));
                        }
                    }
                }
                return Err(StoreError::InvalidInput);
            }
            if i > 0 {
                if !str_lt(entries[i].date.as_str(), entries[i - 1].date.as_str()) {
                    proof {
                        assert(!entries_sorted(entries@)) by {
                            if entries_sorted(entries@) {
                                assert(lex_lt(entries@[i as int].date@, entries@[i - 1].date@));
                            }
                        }
                    }
                    return Err(StoreError::InvalidInput);
                }
            }
            i += 1;
        }
        proof {
            assert forall|p: int, q: int| 0 <= p < q < entries@.len() implies lex_lt(
                entries@[q].date@,
                entries@[p].date@,
            ) by {
                lemma_entries_chain(entries@, p, q);
            }
        }
        // Sessions: non-ascending modification order and unique ids.
        let sn = sessions.len();
        let mut i: usize = 0;
        while i < sn
            invariant
                0 <= i <= sn,
                sn == sessions@.len(),
                forall|k: int|
                    0 <= k < i - 1 ==> lex_le(
                        (#[trigger] sessions@[k + 1]).last_modified_at@,
                        sessions@[k].last_modified_at@,
                    ),
                forall|p: int, q: int|
                    0 <= p < q < i ==> (#[trigger] sessions@[p].id@) != (
                    #[trigger] sessions@[q].id@),
            decreases sn - i,
        {
            if i > 0 {
                if str_lt(
                    sessions[i - 1].last_modified_at.as_str(),
                    sessions[i].last_modified_at.as_str(),
                ) {
                    proof {
                        assert(!sessions_sorted(sessions@)) by {
                            if sessions_sorted(sessions@) {
                                assert(lex_le(
                                    sessions@[i as int].last_modified_at@,
                                    sessions@[i - 1].last_modified_at@,
                                ));
                                crate::text::lemma_lex_lt_asymmetric(
                                    sessions@[i - 1].last_modified_at@,
                                    sessions@[i as int].last_modified_at@,
                                );
                            }
                        }
                    }
                    return Err(StoreError::InvalidInput);
                }
                proof {
                    lemma_lex_lt_total(
                        sessions@[i as int].last_modified_at@,
                        sessions@[i - 1].last_modified_at@,
                    );
                }
            }
            let mut p: usize = 0;
            while p < i
                invariant
                    0 <= p <= i < sn,
                    sn == sessions@.len(),
                    forall|k: int| 0 <= k < p ==> (#[trigger] sessions@[k]).id@ != sessions@[
                        i as int
                    ].id@,
                decreases i - p,
            {
                if str_eq(sessions[p].id.as_str(), sessions[i].id.as_str()) {
                    proof {
                        assert(!session_ids_unique(sessions@)) by {
                            if session_ids_unique(sessions@) {
                                assert(sessions@[p as int].id@ != sessions@[i as int].id@);
                            }
                        }
                    }
                    return Err(StoreError::InvalidInput);
                }
                p += 1;
            }
            i += 1;
        }
        proof {
            assert forall|p: int, q: int| 0 <= p < q < sessions@.len() implies lex_le(
                sessions@[q].last_modified_at@,
                sessions@[p].last_modified_at@,
            ) by {
                lemma_sessions_chain(sessions@, p, q);
            }
        }
        // Messages: ordered, ids unique and in range, fields valid, and
        // every message owned by an existing session.
        let mn = messages.len();
        let mut i: usize = 0;
        while i < mn
            invariant
                0 <= i <= mn,
                mn == messages@.len(),
                sn == sessions@.len(),
                0 <= next_message_id,
                forall|k: int|
                    0 <= k < i - 1 ==> msg_before(#[trigger] messages@[k], messages@[k + 1]),
                forall|p: int, q: int|
                    0 <= p < q < i ==> (#[trigger] messages@[p].id) != (#[trigger] messages@[q].id),
                forall|k: int|
                    0 <= k < i ==> 0 <= (#[trigger] messages@[k]).id < next_message_id as int,
                forall|k: int|
                    0 <= k < i ==> has_session(sessions@, (#[trigger] messages@[k]).session_id@),
                forall|k: int|
                    0 <= k < i ==> is_sender((#[trigger] messages@[k]).sender@) && messages@[
                        k
                    ].content@.len() > 0,
            decreases mn - i,
        {
            let m = &messages[i];
            if m.id < 0 || m.id >= next_message_id {
                proof {
                    assert(!messages_wf(messages@, sessions@, next_message_id as int)) by {
                        if messages_wf(messages@, sessions@, next_message_id as int) {
                            assert(0 <= messages@[i as int].id < next_message_id as int);
                        }
                    }
                }
                return Err(StoreError::InvalidInput);
            }
            let sender_ok = str_eq(m.sender.as_str(), "user") || str_eq(
                m.sender.as_str(),
                "assistant",
            );
            if !sender_ok || m.content.as_str().unicode_len() == 0 {
                proof {
                    assert(!messages_wf(messages@, sessions@, next_message_id as int)) by {
                        if messages_wf(messages@, sessions@, next_message_id as int) {
                            assert(is_sender(messages@[i as int].sender@) && messages@[
                                i as int
                            ].content@.len() > 0);
                        }
                    }
                }
                return Err(StoreError::InvalidInput);
            }
            if i > 0 {
                let prev = &messages[i - 1];
                let ts_lt = str_lt(prev.timestamp.as_str(), m.timestamp.as_str());
                let ts_eq = str_eq(prev.timestamp.as_str(), m.timestamp.as_str());
                if !(ts_lt || (ts_eq && prev.id < m.id)) {
                    proof {
                        assert(!messages_wf(messages@, sessions@, next_message_id as int)) by {
                            if messages_wf(messages@, sessions@, next_message_id as int) {
                                assert(msg_before(messages@[i - 1], messages@[i as int]));
                            }
                        }
                    }
                    return Err(StoreError::InvalidInput);
                }
            }
            let mut p: usize = 0;
            while p < i
                invariant
                    0 <= p <= i < mn,
                    mn == messages@.len(),
                    forall|k: int| 0 <= k < p ==> (#[trigger] messages@[k]).id != messages@[
                        i as int
                    ].id,
                decreases i - p,
            {
                if messages[p].id == messages[i].id {
                    proof {
                        assert(!messages_wf(messages@, sessions@, next_message_id as int)) by {
                            if messages_wf(messages@, sessions@, next_message_id as int) {
                                assert(messages@[p as int].id != messages@[i as int].id);
                            }
                        }
                    }
                    return Err(StoreError::InvalidInput);
                }
                p += 1;
            }
            let mut q: usize = 0;
            let mut owned = false;
            while q < sn
                invariant
                    0 <= q <= sn,
                    sn == sessions@.len(),
                    mn == messages@.len(),
                    owned ==> has_session(sessions@, messages@[i as int].session_id@),
                    !owned ==> forall|k: int|
                        0 <= k < q ==> (#[trigger] sessions@[k]).id@ != messages@[
                            i as int
                        ].session_id@,
                decreases sn - q,
            {
                if str_eq(sessions[q].id.as_str(), messages[i].session_id.as_str()) {
                    owned = true;
                }
                q += 1;
            }
            if !owned {
                proof {
                    assert(!messages_wf(messages@, sessions@, next_message_id as int)) by {
                        if messages_wf(messages@, sessions@, next_message_id as int) {
                            assert(has_session(sessions@, messages@[i as int].session_id@));
                        }
                    }
                }
                return Err(StoreError::InvalidInput);
            }
            i += 1;
        }
        proof {
            assert forall|p: int, q: int| 0 <= p < q < messages@.len() implies msg_before(
                #[trigger] messages@[p],
                #[trigger] messages@[q],
            ) by {
                lemma_messages_chain(messages@, p, q);
            }
        }
        Ok(
            Journal {
                entry_vec: entries,
                session_vec: sessions,
                message_vec: messages,
                next_message_id,
            },
        )
    }

    /// Returns every chat message in the store, in stored order.
    pub fn get_all_chat_messages(&self) -> (r: Vec<ChatMessage>)
        requires
            self.wf(),
        ensures
            r@ == self.messages(),
    {
        let n = self.message_vec.len();
        let mut out: Vec<ChatMessage> = Vec::new();
        let mut i: usize = 0;
        while i < n
            invariant
                0 <= i <= n,
                n == self.message_vec@.len(),
                out@.len() == i,
                forall|j: int| 0 <= j < i ==> out@[j] == self.message_vec@[j],
            decreases n - i,
        {
            out.push(self.message_vec[i].clone());
            i += 1;
        }
        proof {
            assert(out@ =~= self.messages());
        }
        out
    }

    /// The id the next inserted message will receive, for callers that
    /// persist the counter alongside the rows.
    pub fn next_message_id_value(&self) -> (r: i64)
        ensures
            r as int == self.next_id(),
    {
        self.next_message_id
    }
}

} // verus!
