//! The decisions taken for each message of the mailbox: which unique id a
//! message has, which attachments it carries, and whether it can be removed
//! once its attachments have been handled.
use crate::email::{AttachementView, Email};
use crate::storage::{message_resolved, uploadable, state_in, Store};
use std::collections::HashMap;
use vstd::prelude::*;

verus! {

broadcast use vstd::std_specs::hash::group_hash_axioms;

/// The unique ids that a mailbox lists, by message number; where a number
/// is listed more than once, the later id wins.
pub open spec fn uidl_map(items: Seq<(usize, String)>) -> Map<usize, String>
    decreases items.len(),
{
    if items.len() == 0 {
        Map::empty()
    } else {
        uidl_map(items.drop_last()).insert(items.last().0, items.last().1)
    }
}

/// Indexes the unique ids that a mailbox lists by message number.
pub fn index_uidls(items: &[(usize, String)]) -> (index: HashMap<usize, String>)
    ensures
        index@ == uidl_map(items@),
{
    let mut index: HashMap<usize, String> = HashMap::new();
    let n = items.len();
    let mut i: usize = 0;
    while i < n
        invariant
            n == items@.len(),
            i <= n,
            index@ == uidl_map(items@.take(i as int)),
        decreases n - i,
    {
        let (number, id) = &items[i];
        index.insert(*number, id.clone());
        assert(items@.take(i + 1).drop_last() =~= items@.take(i as int));
        i = i + 1;
    }
    assert(items@.take(n as int) =~= items@);
    index
}

/// The file names of the message's attachments, in order.
pub fn attachment_names(email: &Email) -> (names: Vec<String>)
    ensures
        names@.map_values(|s: String| s@) == email@.attachments.map_values(
            |a: AttachementView| a.filename,
        ),
{
    let mut names: Vec<String> = Vec::new();
    let n = email.attachments.len();
    let mut i: usize = 0;
    while i < n
        invariant
            n == email.attachments@.len(),
            i <= n,
            names@.map_values(|s: String| s@) =~= email@.attachments.map_values(
                |a: AttachementView| a.filename,
            ).take(i as int),
        decreases n - i,
    {
        let ghost before = names@;
        names.push(email.attachments[i].filename.clone());
        assert(email@.attachments[i as int] == email.attachments@[i as int]@);
        assert(names@.map_values(|s: String| s@) =~= before.map_values(|s: String| s@).push(
            email.attachments@[i as int].filename@,
        ));
        i = i + 1;
    }
    names
}

/// What becomes of a message once its attachments have been handled.
#[derive(Debug, Clone, Copy, PartialEq, Eq, Structural)]
pub enum MessageAction {
    /// The message has no named attachment; it stays.
    NoAttachments,
    /// Every attachment needs no more work; the message is removed.
    Delete,
    /// Some attachment may still be uploaded; the message stays.
    Keep,
}

/// What becomes of a message with `uidl` whose attachments are `names`.
pub open spec fn message_action_spec(
    store: Map<(Seq<char>, Seq<char>), crate::storage::AttachmentState>,
    uidl: Seq<char>,
    names: Seq<Seq<char>>,
) -> MessageAction {
    if names.len() == 0 {
        MessageAction::NoAttachments
    } else if message_resolved(store, uidl, names) {
        MessageAction::Delete
    } else {
        MessageAction::Keep
    }
}

/// Decides what becomes of the message with `uidl` whose attachments are
/// `attachment_names`: a message without attachments stays, one whose
/// attachments all need no more work is removed, any other stays.
pub fn message_action(store: &Store, uidl: &str, attachment_names: &[String]) -> (action:
    MessageAction)
    ensures
        action == message_action_spec(
            store@,
            uidl@,
            attachment_names@.map_values(|n: String| n@),
        ),
{
    if attachment_names.len() == 0 {
        MessageAction::NoAttachments
    } else if store.message_is_fully_resolved(uidl, attachment_names) {
        MessageAction::Delete
    } else {
        MessageAction::Keep
    }
}

/// A message is removed only when it has attachments and none of them will
/// be offered to the uploader again.
pub proof fn lemma_delete_only_when_done(
    store: Map<(Seq<char>, Seq<char>), crate::storage::AttachmentState>,
    uidl: Seq<char>,
    names: Seq<Seq<char>>,
    max: u32,
)
    requires
        message_action_spec(store, uidl, names) == MessageAction::Delete,
    ensures
        names.len() > 0,
        forall|i: int|
            0 <= i < names.len() ==> !uploadable(state_in(store, (uidl, #[trigger] names[i])), max),
{
    crate::storage::lemma_resolved_message_not_uploadable(store, uidl, names, max);
}

/// A message with no attachment names is left alone; one whose named
/// attachments are all recorded as uploaded, skipped as too small, or given
/// up on is removed; any other is kept.
pub proof fn lemma_message_action_exact(
    store: Map<(Seq<char>, Seq<char>), crate::storage::AttachmentState>,
    uidl: Seq<char>,
    names: Seq<Seq<char>>,
)
    ensures
        names.len() == 0 <==> message_action_spec(store, uidl, names)
            == MessageAction::NoAttachments,
        message_action_spec(store, uidl, names) == MessageAction::Delete <==> (names.len() > 0
            && forall|i: int|
            0 <= i < names.len() ==> #[trigger] store.contains_key((uidl, names[i])) && (store[(
            uidl,
            names[i],
        )].status == crate::storage::AttachmentStatus::Uploaded || store[(uidl, names[i])].status
            == crate::storage::AttachmentStatus::SkippedTooSmall || store[(uidl, names[i])].status
            == crate::storage::AttachmentStatus::FailedPermanent)),
{
    crate::storage::lemma_message_resolved_exact(store, uidl, names);
}

/// Every listed message number is indexed, and it maps to the id of the
/// last item that lists it; no other number is indexed.
pub proof fn lemma_uidl_map_exact(items: Seq<(usize, String)>)
    ensures
        forall|k: usize|
            #[trigger] uidl_map(items).contains_key(k) <==> exists|i: int|
                0 <= i < items.len() && #[trigger] items[i].0 == k,
        forall|i: int|
            0 <= i < items.len() && (forall|j: int|
                i < j < items.len() ==> #[trigger] items[j].0 != items[i].0) ==> uidl_map(
                items,
            )[#[trigger] items[i].0] == items[i].1,
    decreases items.len(),
{
    if items.len() > 0 {
        let init = items.drop_last();
        lemma_uidl_map_exact(init);
        let last = items.len() - 1;
        assert forall|k: usize|
            #[trigger] uidl_map(items).contains_key(k) <==> exists|i: int|
                0 <= i < items.len() && #[trigger] items[i].0 == k by {
            if k == items[last].0 {
                assert(items[last].0 == k);
            }
            if uidl_map(items).contains_key(k) && k != items[last].0 {
                assert(uidl_map(init).contains_key(k));
                let i = choose|i: int| 0 <= i < init.len() && #[trigger] init[i].0 == k;
                assert(items[i] == init[i]);
            }
            if exists|i: int| 0 <= i < items.len() && #[trigger] items[i].0 == k {
                let i = choose|i: int| 0 <= i < items.len() && #[trigger] items[i].0 == k;
                if i < last {
                    assert(init[i] == items[i]);
                    assert(init[i].0 == k);
                    assert(uidl_map(init).contains_key(k));
                }
            }
        }
        assert forall|i: int|
            0 <= i < items.len() && (forall|j: int|
                i < j < items.len() ==> #[trigger] items[j].0 != items[i].0) implies uidl_map(
            items,
        )[#[trigger] items[i].0] == items[i].1 by {
            if i < last {
                assert(init[i] == items[i]);
                assert(items[last].0 != items[i].0);
                assert forall|j: int| i < j < init.len() implies #[trigger] init[j].0
                    != init[i].0 by {
                    assert(init[j] == items[j]);
                }
            }
        }
    }
}

} // verus!
