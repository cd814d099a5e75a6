//! The record of which attachments have been offered to the uploader, and
//! with what outcome.
//!
//! A store maps each attachment, identified by the UIDL of its message and
//! its file name, to the last upload status and the number of attempts so
//! far. It decides whether an attachment may be (re)uploaded and whether a
//! message needs no more work, so that it can be removed from the mailbox.
use vstd::prelude::*;
use vstd::std_specs::cmp::PartialEqSpecImpl;

verus! {

/// The attempt limit used when no valid limit is configured.
pub const DEFAULT_MAX_ATTEMPTS: u32 = 10;

/// The outcome of the last upload of an attachment.
#[derive(Debug, Clone, Copy, PartialEq, Eq, Structural)]
pub enum AttachmentStatus {
    Uploaded,
    SkippedTooSmall,
    FailedRetryable,
    FailedPermanent,
}

/// An attachment, named by the UIDL of its message and its file name.
#[derive(Debug, Hash)]
pub struct AttachmentKey {
    pub uidl: String,
    pub attachment: String,
}

impl View for AttachmentKey {
    type V = (Seq<char>, Seq<char>);

    open spec fn view(&self) -> (Seq<char>, Seq<char>) {
        (self.uidl@, self.attachment@)
    }
}

impl AttachmentKey {
    /// The key of the attachment named `attachment` in the message with `uidl`.
    pub fn new(uidl: &str, attachment: &str) -> (key: AttachmentKey)
        ensures
            key@ == (uidl@, attachment@),
    {
        AttachmentKey { uidl: uidl.to_owned(), attachment: attachment.to_owned() }
    }
}

/// Two keys are equal when they name the same message and file name.
impl PartialEq for AttachmentKey {
    fn eq(&self, other: &AttachmentKey) -> (same: bool) {
        self.uidl == other.uidl && self.attachment == other.attachment
    }
}

impl Eq for AttachmentKey {

}

impl PartialEqSpecImpl for AttachmentKey {
    open spec fn obeys_eq_spec() -> bool {
        true
    }

    open spec fn eq_spec(&self, other: &AttachmentKey) -> bool {
        self@ == other@
    }
}

impl Clone for AttachmentKey {
    fn clone(&self) -> (res: Self)
        ensures
            res == *self,
    {
        AttachmentKey { uidl: self.uidl.clone(), attachment: self.attachment.clone() }
    }
}

/// What the store knows of one attachment.
#[derive(Debug, Clone, Copy)]
pub struct AttachmentState {
    pub status: AttachmentStatus,
    pub attempts: u32,
}

/// One attachment with its state, as the store is saved and loaded.
#[derive(Debug)]
pub struct Entry {
    pub key: AttachmentKey,
    pub state: AttachmentState,
}

impl Clone for Entry {
    fn clone(&self) -> (res: Self)
        ensures
            res == *self,
    {
        Entry { key: self.key.clone(), state: self.state }
    }
}

/// The attachment states that a list of entries describes; where a key
/// occurs more than once, the later entry wins.
pub open spec fn entries_map(entries: Seq<Entry>) -> Map<(Seq<char>, Seq<char>), AttachmentState>
    decreases entries.len(),
{
    if entries.len() == 0 {
        Map::empty()
    } else {
        entries_map(entries.drop_last()).insert(entries.last().key@, entries.last().state)
    }
}

/// No key occurs twice in the entries.
pub open spec fn keys_distinct(entries: Seq<Entry>) -> bool {
    forall|i: int, j: int|
        0 <= i < j < entries.len() ==> #[trigger] entries[i].key@ != #[trigger] entries[j].key@
}

/// The state recorded for `key`, if any.
pub open spec fn state_in(
    m: Map<(Seq<char>, Seq<char>), AttachmentState>,
    key: (Seq<char>, Seq<char>),
) -> Option<AttachmentState> {
    if m.contains_key(key) {
        Some(m[key])
    } else {
        None
    }
}

/// The number of attempts recorded for an attachment; none for an unknown one.
pub open spec fn attempts_of(state: Option<AttachmentState>) -> int {
    match state {
        Some(s) => s.attempts as int,
        None => 0,
    }
}

/// An attachment may be offered to the uploader: it was never offered, or its
/// last upload failed in a way worth retrying and it has been tried fewer
/// than `max` times.
pub open spec fn uploadable(state: Option<AttachmentState>, max: u32) -> bool {
    match state {
        None => true,
        Some(s) => s.status == AttachmentStatus::FailedRetryable && s.attempts < max,
    }
}

/// An attachment needs no more work: it was uploaded, skipped, or gave up on.
pub open spec fn resolved(state: Option<AttachmentState>) -> bool {
    match state {
        Some(s) => s.status == AttachmentStatus::Uploaded || s.status
            == AttachmentStatus::SkippedTooSmall || s.status == AttachmentStatus::FailedPermanent,
        None => false,
    }
}

/// The state recorded after an upload with outcome `status`, given the state
/// before it: one attempt more, and a retryable failure becomes permanent
/// once the attempts reach `max`.
pub open spec fn recorded_state(
    prev: Option<AttachmentState>,
    status: AttachmentStatus,
    max: u32,
) -> AttachmentState {
    let attempts = attempts_of(prev) + 1;
    AttachmentState {
        status: if status == AttachmentStatus::FailedRetryable && attempts >= max {
            AttachmentStatus::FailedPermanent
        } else {
            status
        },
        attempts: attempts as u32,
    }
}

/// Every named attachment of the message with `uidl` needs no more work.
pub open spec fn message_resolved(
    m: Map<(Seq<char>, Seq<char>), AttachmentState>,
    uidl: Seq<char>,
    names: Seq<Seq<char>>,
) -> bool {
    forall|i: int| 0 <= i < names.len() ==> resolved(state_in(m, (uidl, #[trigger] names[i])))
}

proof fn lemma_entries_map_lookup(s: Seq<Entry>, i: int)
    requires
        keys_distinct(s),
        0 <= i < s.len(),
    ensures
        entries_map(s).contains_key(s[i].key@),
        entries_map(s)[s[i].key@] == s[i].state,
    decreases s.len(),
{
    if i < s.len() - 1 {
        let t = s.drop_last();
        assert forall|a: int, b: int| 0 <= a < b < t.len() implies #[trigger] t[a].key@
            != #[trigger] t[b].key@ by {
            assert(t[a] == s[a] && t[b] == s[b]);
        }
        assert(t[i] == s[i]);
        lemma_entries_map_lookup(t, i);
        assert(s[i].key@ != s[s.len() - 1].key@);
    }
}

proof fn lemma_entries_map_absent(s: Seq<Entry>, k: (Seq<char>, Seq<char>))
    requires
        forall|i: int| 0 <= i < s.len() ==> #[trigger] s[i].key@ != k,
    ensures
        !entries_map(s).contains_key(k),
    decreases s.len(),
{
    if s.len() > 0 {
        let t = s.drop_last();
        assert forall|i: int| 0 <= i < t.len() implies #[trigger] t[i].key@ != k by {
            assert(t[i] == s[i]);
        }
        lemma_entries_map_absent(t, k);
        assert(s[s.len() - 1].key@ != k);
    }
}

proof fn lemma_entries_map_update(s: Seq<Entry>, i: int, e: Entry)
    requires
        keys_distinct(s),
        0 <= i < s.len(),
        s[i].key@ == e.key@,
    ensures
        entries_map(s.update(i, e)) == entries_map(s).insert(e.key@, e.state),
    decreases s.len(),
{
    let t = s.update(i, e);
    if i == s.len() - 1 {
        assert(t.drop_last() =~= s.drop_last());
    } else {
        let d = s.drop_last();
        assert(t.drop_last() =~= d.update(i, e));
        assert forall|a: int, b: int| 0 <= a < b < d.len() implies #[trigger] d[a].key@
            != #[trigger] d[b].key@ by {
            assert(d[a] == s[a] && d[b] == s[b]);
        }
        lemma_entries_map_update(d, i, e);
        assert(s[i].key@ != s[s.len() - 1].key@);
        assert(t.last() == s.last());
        assert(entries_map(t) =~= entries_map(s).insert(e.key@, e.state));
    }
}

proof fn lemma_keys_distinct_update(s: Seq<Entry>, i: int, e: Entry)
    requires
        keys_distinct(s),
        0 <= i < s.len(),
        s[i].key@ == e.key@,
    ensures
        keys_distinct(s.update(i, e)),
{
    let t = s.update(i, e);
    assert forall|a: int, b: int| 0 <= a < b < t.len() implies #[trigger] t[a].key@
        != #[trigger] t[b].key@ by {
        assert(t[a].key@ == s[a].key@ && t[b].key@ == s[b].key@);
    }
}

proof fn lemma_keys_distinct_push(s: Seq<Entry>, e: Entry)
    requires
        keys_distinct(s),
        forall|i: int| 0 <= i < s.len() ==> #[trigger] s[i].key@ != e.key@,
    ensures
        keys_distinct(s.push(e)),
{
    let t = s.push(e);
    assert forall|a: int, b: int| 0 <= a < b < t.len() implies #[trigger] t[a].key@
        != #[trigger] t[b].key@ by {
        assert(t[a] == s[a]);
        if b < s.len() {
            assert(t[b] == s[b]);
        }
    }
}

/// The attachment store.
pub struct Store {
    attachments: Vec<Entry>,
    path: String,
    max_attch_attempts: u32,
}

impl View for Store {
    type V = Map<(Seq<char>, Seq<char>), AttachmentState>;

    closed spec fn view(&self) -> Map<(Seq<char>, Seq<char>), AttachmentState> {
        entries_map(self.attachments@)
    }
}

impl Store {
    /// No attachment is recorded twice.
    #[verifier::type_invariant]
    pub closed spec fn well_formed(self) -> bool {
        keys_distinct(self.attachments@)
    }

    /// The number of attempts after which a retryable failure is given up on.
    pub closed spec fn max_attempts(&self) -> u32 {
        self.max_attch_attempts
    }

    /// Where the store is saved.
    pub closed spec fn path_view(&self) -> Seq<char> {
        self.path@
    }

    /// The entries in the order in which they are saved.
    pub closed spec fn saved_entries(&self) -> Seq<Entry> {
        self.attachments@
    }

    /// An empty store, saved at `path`.
    pub fn new(path: String, max_attch_attempts: u32) -> (store: Store)
        ensures
            store@ == Map::<(Seq<char>, Seq<char>), AttachmentState>::empty(),
            store.max_attempts() == max_attch_attempts,
            store.path_view() == path@,
    {
        Store { attachments: Vec::new(), path, max_attch_attempts }
    }

    /// A store that holds the given entries, as loaded from a save; where a
    /// key occurs more than once, the later entry wins.
    pub fn from_entries(entries: Vec<Entry>, path: String, max_attch_attempts: u32) -> (store:
        Store)
        ensures
            store@ == entries_map(entries@),
            store.max_attempts() == max_attch_attempts,
            store.path_view() == path@,
    {
        let mut store = Store::new(path, max_attch_attempts);
        let n = entries.len();
        let mut i: usize = 0;
        while i < n
            invariant
                n == entries@.len(),
                i <= n,
                store@ == entries_map(entries@.take(i as int)),
                store.max_attempts() == max_attch_attempts,
                store.path_view() == path@,
            decreases n - i,
        {
            let e = entries[i].clone();
            store.upsert(e);
            assert(entries@.take(i + 1).drop_last() =~= entries@.take(i as int));
            i = i + 1;
        }
        assert(entries@.take(n as int) =~= entries@);
        store
    }

    /// Where the store is saved.
    pub fn path(&self) -> (p: &String)
        ensures
            p@ == self.path_view(),
    {
        &self.path
    }

    /// The number of attempts after which a retryable failure is given up on.
    pub fn max_attch_attempts(&self) -> (max: u32)
        ensures
            max == self.max_attempts(),
    {
        self.max_attch_attempts
    }

    /// Whether no attachment is recorded.
    pub fn is_empty(&self) -> (empty: bool)
        ensures
            empty == (self@ == Map::<(Seq<char>, Seq<char>), AttachmentState>::empty()),
    {
        proof {
            use_type_invariant(self);
        }
        let empty = self.attachments.len() == 0;
        proof {
            if !empty {
                let s = self.attachments@;
                lemma_entries_map_lookup(s, s.len() - 1);
                assert(!Map::<(Seq<char>, Seq<char>), AttachmentState>::empty().contains_key(
                    s[s.len() - 1].key@,
                ));
            }
        }
        empty
    }

    /// The entries to save: each recorded attachment once.
    pub fn entries(&self) -> (entries: Vec<Entry>)
        ensures
            entries@ == self.saved_entries(),
            keys_distinct(entries@),
            entries_map(entries@) == self@,
    {
        proof {
            use_type_invariant(self);
        }
        let mut out: Vec<Entry> = Vec::new();
        let n = self.attachments.len();
        let mut i: usize = 0;
        while i < n
            invariant
                n == self.attachments@.len(),
                i <= n,
                out@ =~= self.attachments@.take(i as int),
            decreases n - i,
        {
            out.push(self.attachments[i].clone());
            i = i + 1;
        }
        assert(out@ =~= self.attachments@);
        out
    }

    fn find(&self, key: &AttachmentKey) -> (found: Option<usize>)
        ensures
            match found {
                Some(i) => i < self.attachments@.len() && self.attachments@[i as int].key@ == key@,
                None => forall|i: int|
                    0 <= i < self.attachments@.len() ==> #[trigger] self.attachments@[i].key@
                        != key@,
            },
    {
        let n = self.attachments.len();
        let mut i: usize = 0;
        while i < n
            invariant
                n == self.attachments@.len(),
                i <= n,
                forall|j: int| 0 <= j < i ==> #[trigger] self.attachments@[j].key@ != key@,
            decreases n - i,
        {
            if self.attachments[i].key == *key {
                return Some(i);
            }
            i = i + 1;
        }
        None
    }

    /// The state recorded for `key`, if any.
    pub fn state_of(&self, key: &AttachmentKey) -> (state: Option<AttachmentState>)
        ensures
            state == state_in(self@, key@),
    {
        proof {
            use_type_invariant(self);
        }
        match self.find(key) {
            Some(i) => {
                proof {
                    lemma_entries_map_lookup(self.attachments@, i as int);
                }
                Some(self.attachments[i].state)
            },
            None => {
                proof {
                    lemma_entries_map_absent(self.attachments@, key@);
                }
                None
            },
        }
    }

    fn upsert(&mut self, entry: Entry)
        ensures
            final(self)@ == old(self)@.insert(entry.key@, entry.state),
            final(self).max_attempts() == old(self).max_attempts(),
            final(self).path_view() == old(self).path_view(),
    {
        proof {
            use_type_invariant(&*self);
        }
        let ghost s = self.attachments@;
        let found = self.find(&entry.key);
        let mut items: Vec<Entry> = Vec::new();
        std::mem::swap(&mut items, &mut self.attachments);
        match found {
            Some(i) => {
                proof {
                    lemma_entries_map_update(s, i as int, entry);
                    lemma_keys_distinct_update(s, i as int, entry);
                }
                items.set(i, entry);
            },
            None => {
                proof {
                    lemma_keys_distinct_push(s, entry);
                    assert(s.push(entry).drop_last() =~= s);
                }
                items.push(entry);
            },
        }
        self.attachments = items;
    }

    /// Whether the attachment may be offered to the uploader: it was never
    /// offered, or it failed in a way worth retrying fewer times than the limit.
    pub fn is_uploadable(&self, key: &AttachmentKey) -> (ok: bool)
        ensures
            ok == uploadable(state_in(self@, key@), self.max_attempts()),
    {
        match self.state_of(key) {
            None => true,
            Some(state) => match state.status {
                AttachmentStatus::Uploaded => false,
                AttachmentStatus::SkippedTooSmall => false,
                AttachmentStatus::FailedPermanent => false,
                AttachmentStatus::FailedRetryable => state.attempts < self.max_attch_attempts,
            },
        }
    }

    /// Records the outcome of an upload of the attachment: one attempt more,
    /// and a retryable failure becomes permanent once the attempts reach the
    /// limit. The other attachments keep their state.
    pub fn record_outcome(&mut self, key: AttachmentKey, status: AttachmentStatus)
        requires
            attempts_of(state_in(old(self)@, key@)) < u32::MAX,
        ensures
            final(self)@ == old(self)@.insert(
                key@,
                recorded_state(state_in(old(self)@, key@), status, old(self).max_attempts()),
            ),
            final(self).max_attempts() == old(self).max_attempts(),
            final(self).path_view() == old(self).path_view(),
    {
        let prev = self.state_of(&key);
        let attempts: u32 = match prev {
            Some(s) => s.attempts + 1,
            None => 1,
        };
        let mut status = status;
        if status == AttachmentStatus::FailedRetryable && attempts >= self.max_attch_attempts {
            status = AttachmentStatus::FailedPermanent;
        }
        self.upsert(Entry { key, state: AttachmentState { status, attempts } });
    }

    /// Whether every named attachment of the message with `uidl` needs no
    /// more work: each was uploaded, skipped as too small, or given up on.
    pub fn message_is_fully_resolved(&self, uidl: &str, attachment_names: &[String]) -> (done:
        bool)
        ensures
            done == message_resolved(self@, uidl@, attachment_names@.map_values(|n: String| n@)),
    {
        let ghost names = attachment_names@.map_values(|n: String| n@);
        let n = attachment_names.len();
        let mut i: usize = 0;
        while i < n
            invariant
                n == attachment_names@.len(),
                names == attachment_names@.map_values(|n: String| n@),
                i <= n,
                forall|j: int|
                    0 <= j < i ==> resolved(state_in(self@, (uidl@, #[trigger] names[j]))),
            decreases n - i,
        {
            let key = AttachmentKey { uidl: uidl.to_owned(), attachment: attachment_names[i].clone() };
            let state = self.state_of(&key);
            let done = match state {
                Some(s) => match s.status {
                    AttachmentStatus::Uploaded => true,
                    AttachmentStatus::SkippedTooSmall => true,
                    AttachmentStatus::FailedPermanent => true,
                    AttachmentStatus::FailedRetryable => false,
                },
                None => false,
            };
            assert(names[i as int] == attachment_names@[i as int]@);
            if !done {
                return false;
            }
            i = i + 1;
        }
        true
    }
}


/// A decimal digit.
pub open spec fn is_digit(c: char) -> bool {
    '0' <= c <= '9'
}

/// The number that a string of decimal digits spells.
pub open spec fn digits_value(s: Seq<char>) -> int
    decreases s.len(),
{
    if s.len() == 0 {
        0
    } else {
        digits_value(s.drop_last()) * 10 + (s.last() as int - '0' as int)
    }
}

/// Text without the one `+` sign that may lead it.
pub open spec fn without_plus(s: Seq<char>) -> Seq<char> {
    if s.len() > 0 && s[0] == '+' {
        s.subrange(1, s.len() as int)
    } else {
        s
    }
}

/// Every character is a decimal digit.
pub open spec fn all_digits(d: Seq<char>) -> bool {
    forall|i: int| 0 <= i < d.len() ==> is_digit(#[trigger] d[i])
}

/// How an unsigned 32-bit number is read from text: an optional `+`, then
/// one or more decimal digits whose value fits in 32 bits; nothing else.
pub open spec fn parse_u32_spec(s: Seq<char>) -> Option<u32> {
    let d = without_plus(s);
    if d.len() > 0 && all_digits(d) && digits_value(d) <= u32::MAX {
        Some(digits_value(d) as u32)
    } else {
        None
    }
}

/// The attempt limit that a configured value gives: the value read as a
/// number, or the default where it is missing or not a number.
pub open spec fn max_attempts_spec(value: Option<Seq<char>>) -> u32 {
    match value {
        Some(v) => match parse_u32_spec(v) {
            Some(n) => n,
            None => DEFAULT_MAX_ATTEMPTS,
        },
        None => DEFAULT_MAX_ATTEMPTS,
    }
}

/// Reads an unsigned 32-bit number from text: an optional `+` and decimal
/// digits, with a value that fits.
pub fn parse_u32(s: &str) -> (n: Option<u32>)
    ensures
        n == parse_u32_spec(s@),
{
    let len = s.unicode_len();
    let mut start: usize = 0;
    if len > 0 && s.get_char(0) == '+' {
        start = 1;
    }
    let ghost d = without_plus(s@);
    assert(d =~= s@.subrange(start as int, len as int));
    if start == len {
        return None;
    }
    let mut value: u64 = 0;
    let mut too_big = false;
    let mut i = start;
    while i < len
        invariant
            len == s@.len(),
            start <= i <= len,
            d == without_plus(s@),
            d =~= s@.subrange(start as int, len as int),
            forall|j: int| 0 <= j < i - start ==> is_digit(#[trigger] d[j]),
            too_big ==> digits_value(d.take(i - start)) > u32::MAX,
            !too_big ==> value == digits_value(d.take(i - start)) && value <= u32::MAX,
        decreases len - i,
    {
        let c = s.get_char(i);
        assert(c == d[i - start]);
        if c < '0' || c > '9' {
            assert(!is_digit(d[i - start]));
            return None;
        }
        let ghost k = i - start;
        assert(d.take(k + 1).drop_last() =~= d.take(k));
        assert(d.take(k + 1).last() == c);
        if !too_big {
            value = value * 10 + ((c as u32) - ('0' as u32)) as u64;
            if value > u32::MAX as u64 {
                too_big = true;
            }
        }
        i = i + 1;
    }
    assert(d.take(len - start) =~= d);
    if too_big {
        None
    } else {
        Some(value as u32)
    }
}

/// The attempt limit that a configured value gives: the value read as a
/// number, or the default where it is missing or not a number.
pub fn max_attempts_setting(value: Option<&str>) -> (max: u32)
    ensures
        max == max_attempts_spec(
            match value {
                Some(v) => Some(v@),
                None => None,
            },
        ),
{
    match value {
        Some(v) => match parse_u32(v) {
            Some(n) => n,
            None => DEFAULT_MAX_ATTEMPTS,
        },
        None => DEFAULT_MAX_ATTEMPTS,
    }
}

/// Reading an attachment right after recording an outcome for it gives the
/// recorded state; every other attachment reads as it did before.
pub proof fn lemma_read_after_record(
    m: Map<(Seq<char>, Seq<char>), AttachmentState>,
    key: (Seq<char>, Seq<char>),
    other: (Seq<char>, Seq<char>),
    status: AttachmentStatus,
    max: u32,
)
    ensures
        state_in(m.insert(key, recorded_state(state_in(m, key), status, max)), key) == Some(
            recorded_state(state_in(m, key), status, max),
        ),
        other != key ==> state_in(
            m.insert(key, recorded_state(state_in(m, key), status, max)),
            other,
        ) == state_in(m, other),
{
}

/// Each recorded outcome counts one attempt more than there were before.
pub proof fn lemma_record_counts_attempt(prev: Option<AttachmentState>, status: AttachmentStatus, max: u32)
    requires
        attempts_of(prev) < u32::MAX,
    ensures
        attempts_of(Some(recorded_state(prev, status, max))) == attempts_of(prev) + 1,
{
}

/// After an upload, the attachment may be offered again exactly when the
/// upload failed in a way worth retrying and the attempts are still below
/// the limit; a retryable failure at the limit is given up on.
pub proof fn lemma_uploadable_after_record(prev: Option<AttachmentState>, status: AttachmentStatus, max: u32)
    requires
        attempts_of(prev) < u32::MAX,
    ensures
        uploadable(Some(recorded_state(prev, status, max)), max) <==> (status
            == AttachmentStatus::FailedRetryable && attempts_of(prev) + 1 < max),
        status == AttachmentStatus::FailedRetryable && attempts_of(prev) + 1 >= max ==> recorded_state(
            prev,
            status,
            max,
        ).status == AttachmentStatus::FailedPermanent,
{
}

/// An attachment that was offered before is offered again only while its
/// attempts are below the limit.
pub proof fn lemma_uploadable_below_limit(state: Option<AttachmentState>, max: u32)
    ensures
        uploadable(state, max) && state is Some ==> attempts_of(state) < max,
{
}

/// An attachment that needs no more work is never offered again.
pub proof fn lemma_resolved_not_uploadable(state: Option<AttachmentState>, max: u32)
    ensures
        resolved(state) ==> !uploadable(state, max),
{
}

/// When every attachment of a message needs no more work, none of them is
/// offered to the uploader again.
pub proof fn lemma_resolved_message_not_uploadable(
    m: Map<(Seq<char>, Seq<char>), AttachmentState>,
    uidl: Seq<char>,
    names: Seq<Seq<char>>,
    max: u32,
)
    requires
        message_resolved(m, uidl, names),
    ensures
        forall|i: int|
            0 <= i < names.len() ==> !uploadable(state_in(m, (uidl, #[trigger] names[i])), max),
{
    assert forall|i: int| 0 <= i < names.len() implies !uploadable(
        state_in(m, (uidl, #[trigger] names[i])),
        max,
    ) by {
        lemma_resolved_not_uploadable(state_in(m, (uidl, names[i])), max);
    }
}

/// Loading the entries that a store saves rebuilds the same states: the
/// saved entries name each attachment once, and their map is the store's.
pub proof fn lemma_load_saved_entries(store: Store)
    requires
        store.well_formed(),
    ensures
        keys_distinct(store.saved_entries()),
        entries_map(store.saved_entries()) == store@,
{
}

/// No retryable failure is recorded at or above the attempt limit.
pub open spec fn retries_within_limit(m: Map<(Seq<char>, Seq<char>), AttachmentState>, max: u32) -> bool {
    forall|k: (Seq<char>, Seq<char>)|
        #[trigger] m.contains_key(k) && m[k].status == AttachmentStatus::FailedRetryable
            ==> m[k].attempts < max
}

/// Recording an outcome keeps every retryable failure below the attempt
/// limit: the recorded one is below it, the others are untouched.
pub proof fn lemma_record_keeps_retries_within_limit(
    m: Map<(Seq<char>, Seq<char>), AttachmentState>,
    key: (Seq<char>, Seq<char>),
    status: AttachmentStatus,
    max: u32,
)
    requires
        retries_within_limit(m, max),
        attempts_of(state_in(m, key)) < u32::MAX,
    ensures
        retries_within_limit(m.insert(key, recorded_state(state_in(m, key), status, max)), max),
{
}

/// Right after an outcome is recorded for an attachment, it may be offered
/// again exactly when the outcome was a retryable failure and its attempts
/// are still below the limit.
pub proof fn lemma_uploadable_read_after_record(
    m: Map<(Seq<char>, Seq<char>), AttachmentState>,
    key: (Seq<char>, Seq<char>),
    status: AttachmentStatus,
    max: u32,
)
    requires
        attempts_of(state_in(m, key)) < u32::MAX,
    ensures
        uploadable(
            state_in(m.insert(key, recorded_state(state_in(m, key), status, max)), key),
            max,
        ) <==> (status == AttachmentStatus::FailedRetryable && attempts_of(state_in(m, key)) + 1
            < max),
{
    lemma_uploadable_after_record(state_in(m, key), status, max);
}

/// Recording an outcome stores it under the key with one attempt more than
/// before (one for a key seen for the first time). The status stored is the
/// one given, except a retryable failure whose new attempt count reaches the
/// limit, which is stored as given up.
pub proof fn lemma_record_outcome_stores(
    m: Map<(Seq<char>, Seq<char>), AttachmentState>,
    key: (Seq<char>, Seq<char>),
    status: AttachmentStatus,
    max: u32,
)
    requires
        m.contains_key(key) ==> m[key].attempts < u32::MAX,
    ensures
        ({
            let after = m.insert(key, recorded_state(state_in(m, key), status, max));
            let old_attempts: int = if m.contains_key(key) {
                m[key].attempts as int
            } else {
                0
            };
            &&& after.contains_key(key)
            &&& after[key].attempts == old_attempts + 1
            &&& status != AttachmentStatus::FailedRetryable ==> after[key].status == status
            &&& status == AttachmentStatus::FailedRetryable && old_attempts + 1 < max
                ==> after[key].status == AttachmentStatus::FailedRetryable
            &&& status == AttachmentStatus::FailedRetryable && old_attempts + 1 >= max
                ==> after[key].status == AttachmentStatus::FailedPermanent
            &&& forall|k: (Seq<char>, Seq<char>)|
                k != key ==> (#[trigger] after.contains_key(k) == m.contains_key(k) && (
                m.contains_key(k) ==> after[k] == m[k]))
        }),
{
}

/// An attachment that is not recorded may be uploaded; a recorded one may
/// be uploaded exactly when its last upload was a retryable failure and its
/// attempts are below the limit. Uploaded, skipped and given-up attachments
/// never are.
pub proof fn lemma_uploadable_exact(
    m: Map<(Seq<char>, Seq<char>), AttachmentState>,
    key: (Seq<char>, Seq<char>),
    max: u32,
)
    ensures
        !m.contains_key(key) ==> uploadable(state_in(m, key), max),
        m.contains_key(key) ==> (uploadable(state_in(m, key), max) <==> (m[key].status
            == AttachmentStatus::FailedRetryable && m[key].attempts < max)),
        m.contains_key(key) && (m[key].status == AttachmentStatus::Uploaded || m[key].status
            == AttachmentStatus::SkippedTooSmall || m[key].status
            == AttachmentStatus::FailedPermanent) ==> !uploadable(state_in(m, key), max),
{
}

/// A message is fully resolved exactly when each of its named attachments
/// is recorded as uploaded, skipped as too small, or given up on.
pub proof fn lemma_message_resolved_exact(
    m: Map<(Seq<char>, Seq<char>), AttachmentState>,
    uidl: Seq<char>,
    names: Seq<Seq<char>>,
)
    ensures
        message_resolved(m, uidl, names) <==> forall|i: int|
            0 <= i < names.len() ==> #[trigger] m.contains_key((uidl, names[i])) && (m[(
            uidl,
            names[i],
        )].status == AttachmentStatus::Uploaded || m[(uidl, names[i])].status
            == AttachmentStatus::SkippedTooSmall || m[(uidl, names[i])].status
            == AttachmentStatus::FailedPermanent),
{
    if message_resolved(m, uidl, names) {
        assert forall|i: int| 0 <= i < names.len() implies #[trigger] m.contains_key(
            (uidl, names[i]),
        ) && (m[(uidl, names[i])].status == AttachmentStatus::Uploaded || m[(
            uidl,
            names[i],
        )].status == AttachmentStatus::SkippedTooSmall || m[(uidl, names[i])].status
            == AttachmentStatus::FailedPermanent) by {
            assert(resolved(state_in(m, (uidl, names[i]))));
        }
    }
}

/// The states that loaded entries give: a key is recorded exactly when some
/// entry names it, and it holds the state of the last entry that does.
pub proof fn lemma_entries_map_exact(entries: Seq<Entry>)
    ensures
        forall|k: (Seq<char>, Seq<char>)|
            #[trigger] entries_map(entries).contains_key(k) <==> exists|i: int|
                0 <= i < entries.len() && #[trigger] entries[i].key@ == k,
        forall|i: int|
            0 <= i < entries.len() && (forall|j: int|
                i < j < entries.len() ==> #[trigger] entries[j].key@ != entries[i].key@)
                ==> entries_map(entries)[#[trigger] entries[i].key@] == entries[i].state,
    decreases entries.len(),
{
    if entries.len() > 0 {
        let init = entries.drop_last();
        lemma_entries_map_exact(init);
        let last = entries.len() - 1;
        assert forall|k: (Seq<char>, Seq<char>)|
            #[trigger] entries_map(entries).contains_key(k) <==> exists|i: int|
                0 <= i < entries.len() && #[trigger] entries[i].key@ == k by {
            if entries_map(entries).contains_key(k) && k != entries[last].key@ {
                assert(entries_map(init).contains_key(k));
                let i = choose|i: int| 0 <= i < init.len() && #[trigger] init[i].key@ == k;
                assert(entries[i] == init[i]);
            }
            if exists|i: int| 0 <= i < entries.len() && #[trigger] entries[i].key@ == k {
                let i = choose|i: int| 0 <= i < entries.len() && #[trigger] entries[i].key@ == k;
                if i < last {
                    assert(init[i] == entries[i]);
                }
            }
        }
        assert forall|i: int|
            0 <= i < entries.len() && (forall|j: int|
                i < j < entries.len() ==> #[trigger] entries[j].key@ != entries[i].key@)
                implies entries_map(entries)[#[trigger] entries[i].key@] == entries[i].state by {
            if i < last {
                assert(init[i] == entries[i]);
                assert(entries[last].key@ != entries[i].key@);
                assert forall|j: int| i < j < init.len() implies #[trigger] init[j].key@
                    != init[i].key@ by {
                    assert(init[j] == entries[j]);
                }
            }
        }
    }
}

/// Digits written after others shift them by one decimal place each: the
/// value of `a` followed by `b` is the value of `a` times ten to the length
/// of `b`, plus the value of `b`. In particular, leading zeros do not count.
pub proof fn lemma_digits_concat(a: Seq<char>, b: Seq<char>)
    ensures
        digits_value(a + b) == digits_value(a) * vstd::arithmetic::power::pow(10, b.len())
            + digits_value(b),
        digits_value(seq!['0'] + b) == digits_value(b),
    decreases b.len(),
{
    if b.len() == 0 {
        assert(vstd::arithmetic::power::pow(10, 0) == 1) by {
            reveal(vstd::arithmetic::power::pow);
        }
        assert(a + b =~= a);
        assert(seq!['0'].drop_last() =~= Seq::<char>::empty());
        assert(digits_value(Seq::<char>::empty()) == 0);
        assert(seq!['0'].last() == '0');
        assert(digits_value(seq!['0']) == 0);
    } else {
        let b1 = b.drop_last();
        lemma_digits_concat(a, b1);
        assert((a + b).drop_last() =~= a + b1);
        assert((a + b).last() == b.last());
        assert((seq!['0'] + b).drop_last() =~= seq!['0'] + b1);
        assert((seq!['0'] + b).last() == b.last());
        let p = vstd::arithmetic::power::pow(10, b1.len());
        assert(vstd::arithmetic::power::pow(10, b.len()) == 10 * p) by {
            reveal(vstd::arithmetic::power::pow);
        }
        let x = digits_value(a);
        let y = digits_value(b1);
        let d = b.last() as int - '0' as int;
        assert((x * p + y) * 10 + d == x * (10 * p) + (y * 10 + d)) by (nonlinear_arith);
    }
}

/// A leading `+` is read past: text with one leading `+` reads as the same
/// text without it, unless a second `+` follows.
pub proof fn lemma_parse_u32_plus(d: Seq<char>)
    requires
        d.len() == 0 || d[0] != '+',
    ensures
        parse_u32_spec(seq!['+'] + d) == parse_u32_spec(d),
{
    assert((seq!['+'] + d).subrange(1, d.len() + 1 as int) =~= d);
}

/// Text that holds a character other than a digit, past a leading `+`, is
/// not a number; nor is empty text or a lone `+`.
pub proof fn lemma_parse_u32_rejects(s: Seq<char>, i: int)
    requires
        0 <= i < s.len(),
        !is_digit(s[i]),
        i > 0 || s[i] != '+',
    ensures
        parse_u32_spec(s) is None,
        parse_u32_spec(Seq::<char>::empty()) is None,
        parse_u32_spec(seq!['+']) is None,
{
    let d = without_plus(s);
    if s[0] == '+' {
        assert(d[i - 1] == s[i]);
    } else {
        assert(d[i] == s[i]);
    }
    assert(seq!['+'].subrange(1, 1) =~= Seq::<char>::empty());
}

/// A configured limit that is missing or not a number gives the default;
/// one that is a number gives that number.
pub proof fn lemma_max_attempts(value: Option<Seq<char>>)
    ensures
        value is None ==> max_attempts_spec(value) == DEFAULT_MAX_ATTEMPTS,
        value is Some && parse_u32_spec(value.unwrap()) is None ==> max_attempts_spec(value)
            == DEFAULT_MAX_ATTEMPTS,
        value is Some && parse_u32_spec(value.unwrap()) is Some ==> max_attempts_spec(value)
            == parse_u32_spec(value.unwrap()).unwrap(),
        DEFAULT_MAX_ATTEMPTS == 10,
{
}

} // verus!
