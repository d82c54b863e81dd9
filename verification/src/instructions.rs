use crate::clock::unix_timestamp;
use crate::error::{DocumentError, InstructionError};
use crate::identity::Identity;
use crate::records::{
    byte_len, encoded_len, first_grant, has_grant, lemma_append_keeps_recipients_distinct,
    lemma_first_grant_unique, lemma_remove_keeps_recipients_distinct, recipients_distinct,
    Document, SharedWith, UserDocuments, MAX_CID_LEN, MAX_FILE_NAME_LEN, MAX_FILE_TYPE_LEN,
    MAX_IV_LEN,
};
use vstd::prelude::*;

verus! {

/// What `initialize` works on: the catalog to set up and the user who asks.
#[derive(Clone, Copy, Debug)]
pub struct Initialize {
    pub user_documents: UserDocuments,
    pub user: Identity,
}

/// What `add_document` works on: the caller's catalog, the record to fill
/// and the user who asks.
#[derive(Clone, Debug)]
pub struct AddDocument {
    pub user_documents: UserDocuments,
    pub document: Document,
    pub user: Identity,
}

/// What `share_document` works on: the record, the user who asks and the
/// user who is to get access.
#[derive(Clone, Debug)]
pub struct ShareDocument {
    pub document: Document,
    pub sharer: Identity,
    pub recipient: Identity,
}

/// What `revoke_access` works on: the record, the user who asks and the
/// user who is to lose access.
#[derive(Clone, Debug)]
pub struct RevokeAccess {
    pub document: Document,
    pub owner: Identity,
    pub recipient: Identity,
}

/// What `close_document` works on: the caller's catalog, the record to
/// delete and the user who asks.
#[derive(Clone, Debug)]
pub struct CloseDocument {
    pub user_documents: UserDocuments,
    pub document: Document,
    pub user: Identity,
}

/// Sets up the catalog of `ctx.user` with no documents.
pub fn initialize(ctx: &mut Initialize) -> (r: Result<(), DocumentError>)
    ensures
        r is Ok,
        final(ctx).user == old(ctx).user,
        final(ctx).user_documents == (UserDocuments { owner: old(ctx).user, document_count: 0 }),
{
    ctx.user_documents.owner = ctx.user;
    ctx.user_documents.document_count = 0;
    Ok(())
}

/// Whether a new document is accepted, and if not, why: the owner of the
/// catalog is tested first, then the four length limits in this order,
/// then the room left in the count.
pub open spec fn add_document_outcome(
    user_documents: UserDocuments,
    user: Identity,
    file_name: Seq<char>,
    file_type: Seq<char>,
    encrypted_cid: Seq<char>,
    iv: Seq<char>,
) -> Result<(), DocumentError> {
    if user_documents.owner != user {
        Err(DocumentError::NotDocumentOwner)
    } else if encoded_len(file_name) > MAX_FILE_NAME_LEN {
        Err(DocumentError::InvalidFileName)
    } else if encoded_len(file_type) > MAX_FILE_TYPE_LEN {
        Err(DocumentError::InvalidFileType)
    } else if encoded_len(encrypted_cid) > MAX_CID_LEN {
        Err(DocumentError::InvalidCID)
    } else if encoded_len(iv) > MAX_IV_LEN {
        Err(DocumentError::InvalidIV)
    } else if user_documents.document_count == u64::MAX {
        Err(DocumentError::ArithmeticOverflow)
    } else {
        Ok(())
    }
}

/// `after` is `before` with the record filled in and counted: owned by the
/// caller, holding the given texts, created at `now`, shared with nobody.
pub open spec fn document_added(
    before: AddDocument,
    after: AddDocument,
    file_name: String,
    file_type: String,
    encrypted_cid: String,
    iv: String,
    now: i64,
) -> bool {
    &&& after.user == before.user
    &&& after.user_documents == (UserDocuments {
        owner: before.user,
        document_count: (before.user_documents.document_count + 1) as u64,
    })
    &&& after.document.owner == before.user
    &&& after.document.file_name == file_name
    &&& after.document.file_type == file_type
    &&& after.document.encrypted_cid == encrypted_cid
    &&& after.document.iv == iv
    &&& after.document.created_at == now
    &&& after.document.shared_with@ == Seq::<SharedWith>::empty()
    &&& after.document.wf()
}

/// Tests a new document against the owner of the catalog, the limits and
/// the room left in the count.
pub fn check_add_document(
    user_documents: &UserDocuments,
    user: Identity,
    file_name: &String,
    file_type: &String,
    encrypted_cid: &String,
    iv: &String,
) -> (r: Result<(), DocumentError>)
    ensures
        r == add_document_outcome(
            *user_documents,
            user,
            file_name@,
            file_type@,
            encrypted_cid@,
            iv@,
        ),
{
    if user_documents.owner != user {
        return Err(DocumentError::NotDocumentOwner);
    }
    if byte_len(file_name) > MAX_FILE_NAME_LEN {
        return Err(DocumentError::InvalidFileName);
    }
    if byte_len(file_type) > MAX_FILE_TYPE_LEN {
        return Err(DocumentError::InvalidFileType);
    }
    if byte_len(encrypted_cid) > MAX_CID_LEN {
        return Err(DocumentError::InvalidCID);
    }
    if byte_len(iv) > MAX_IV_LEN {
        return Err(DocumentError::InvalidIV);
    }
    if user_documents.document_count == u64::MAX {
        return Err(DocumentError::ArithmeticOverflow);
    }
    Ok(())
}

/// Fills `ctx.document` with a new record owned by `ctx.user`, created at
/// `now` and shared with nobody, and counts it in the catalog.
pub fn add_document_at(
    ctx: &mut AddDocument,
    file_name: String,
    file_type: String,
    encrypted_cid: String,
    iv: String,
    now: i64,
) -> (r: Result<(), DocumentError>)
    ensures
        r == add_document_outcome(
            old(ctx).user_documents,
            old(ctx).user,
            file_name@,
            file_type@,
            encrypted_cid@,
            iv@,
        ),
        r is Err ==> *final(ctx) == *old(ctx),
        r is Ok ==> document_added(
            *old(ctx),
            *final(ctx),
            file_name,
            file_type,
            encrypted_cid,
            iv,
            now,
        ),
{
    match check_add_document(
        &ctx.user_documents,
        ctx.user,
        &file_name,
        &file_type,
        &encrypted_cid,
        &iv,
    ) {
        Err(e) => {
            return Err(e);
        },
        Ok(()) => {},
    }
    let count: u64 = match ctx.user_documents.document_count.checked_add(1) {
        Some(c) => c,
        None => {
            return Err(DocumentError::ArithmeticOverflow);
        },
    };
    ctx.document.owner = ctx.user;
    ctx.document.file_name = file_name;
    ctx.document.file_type = file_type;
    ctx.document.encrypted_cid = encrypted_cid;
    ctx.document.iv = iv;
    ctx.document.created_at = now;
    ctx.document.shared_with = Vec::new();
    ctx.user_documents.document_count = count;
    Ok(())
}

/// Fills `ctx.document` with a new record, created at the time that the
/// ledger's clock gives. A document that fails a test is rejected before
/// the clock is read; where the clock cannot be read, nothing changes.
pub fn add_document(
    ctx: &mut AddDocument,
    file_name: String,
    file_type: String,
    encrypted_cid: String,
    iv: String,
) -> (r: Result<(), InstructionError>)
    ensures
        ({
            let outcome = add_document_outcome(
                old(ctx).user_documents,
                old(ctx).user,
                file_name@,
                file_type@,
                encrypted_cid@,
                iv@,
            );
            match r {
                Ok(()) => outcome is Ok && document_added(
                    *old(ctx),
                    *final(ctx),
                    file_name,
                    file_type,
                    encrypted_cid,
                    iv,
                    final(ctx).document.created_at,
                ),
                Err(InstructionError::Rejected(e)) => outcome == Err::<(), DocumentError>(e)
                    && *final(ctx) == *old(ctx),
                Err(InstructionError::Clock(_)) => outcome is Ok && *final(ctx) == *old(ctx),
            }
        }),
{
    match check_add_document(
        &ctx.user_documents,
        ctx.user,
        &file_name,
        &file_type,
        &encrypted_cid,
        &iv,
    ) {
        Err(e) => {
            return Err(InstructionError::Rejected(e));
        },
        Ok(()) => {},
    }
    let now: i64 = match unix_timestamp() {
        Ok(t) => t,
        Err(e) => {
            return Err(InstructionError::Clock(e));
        },
    };
    match add_document_at(ctx, file_name, file_type, encrypted_cid, iv, now) {
        Ok(()) => Ok(()),
        Err(e) => Err(InstructionError::Rejected(e)),
    }
}

/// Whether a grant is accepted: the caller must own the document, and the
/// recipient must not hold a grant yet.
pub open spec fn share_document_outcome(
    document: Document,
    sharer: Identity,
    recipient: Identity,
) -> Result<(), DocumentError> {
    if document.owner != sharer {
        Err(DocumentError::NotDocumentOwner)
    } else if has_grant(document.shared_with@, recipient) {
        Err(DocumentError::AlreadySharedWithRecipient)
    } else {
        Ok(())
    }
}

/// `after` is `before` with one more grant at the end: for the recipient of
/// `before`, holding the given texts, made at `now`.
pub open spec fn grant_appended(
    before: ShareDocument,
    after: ShareDocument,
    encrypted_cid_for_recipient: String,
    iv_for_recipient: String,
    now: i64,
) -> bool {
    &&& after.sharer == before.sharer
    &&& after.recipient == before.recipient
    &&& after.document.owner == before.document.owner
    &&& after.document.file_name == before.document.file_name
    &&& after.document.file_type == before.document.file_type
    &&& after.document.encrypted_cid == before.document.encrypted_cid
    &&& after.document.iv == before.document.iv
    &&& after.document.created_at == before.document.created_at
    &&& after.document.shared_with@ == before.document.shared_with@.push(
        SharedWith {
            recipient: before.recipient,
            encrypted_cid: encrypted_cid_for_recipient,
            iv: iv_for_recipient,
            shared_at: now,
        },
    )
}

/// Tests whether `sharer` may give `recipient` a grant on `document`.
pub fn check_share_document(document: &Document, sharer: Identity, recipient: Identity) -> (r:
    Result<(), DocumentError>)
    ensures
        r == share_document_outcome(*document, sharer, recipient),
{
    if document.owner != sharer {
        return Err(DocumentError::NotDocumentOwner);
    }
    if document.is_shared_with(recipient) {
        return Err(DocumentError::AlreadySharedWithRecipient);
    }
    Ok(())
}

/// Appends a grant for `ctx.recipient`, made at `now`, to the grants of
/// `ctx.document`. The grants that were there keep their order.
pub fn share_document_at(
    ctx: &mut ShareDocument,
    encrypted_cid_for_recipient: String,
    iv_for_recipient: String,
    now: i64,
) -> (r: Result<(), DocumentError>)
    ensures
        r == share_document_outcome(old(ctx).document, old(ctx).sharer, old(ctx).recipient),
        r is Err ==> *final(ctx) == *old(ctx),
        r is Ok ==> grant_appended(
            *old(ctx),
            *final(ctx),
            encrypted_cid_for_recipient,
            iv_for_recipient,
            now,
        ),
        recipients_distinct(old(ctx).document.shared_with@) ==> recipients_distinct(
            final(ctx).document.shared_with@,
        ),
        old(ctx).document.wf() ==> final(ctx).document.wf(),
{
    match check_share_document(&ctx.document, ctx.sharer, ctx.recipient) {
        Err(e) => {
            return Err(e);
        },
        Ok(()) => {},
    }
    let grant = SharedWith {
        recipient: ctx.recipient,
        encrypted_cid: encrypted_cid_for_recipient,
        iv: iv_for_recipient,
        shared_at: now,
    };
    proof {
        if recipients_distinct(ctx.document.shared_with@) {
            lemma_append_keeps_recipients_distinct(ctx.document.shared_with@, grant);
        }
    }
    ctx.document.shared_with.push(grant);
    Ok(())
}

/// Appends a grant for `ctx.recipient`, made at the time that the ledger's
/// clock gives. A grant that fails a test is rejected before the clock is
/// read; where the clock cannot be read, nothing changes.
pub fn share_document(
    ctx: &mut ShareDocument,
    encrypted_cid_for_recipient: String,
    iv_for_recipient: String,
) -> (r: Result<(), InstructionError>)
    ensures
        ({
            let outcome = share_document_outcome(
                old(ctx).document,
                old(ctx).sharer,
                old(ctx).recipient,
            );
            match r {
                Ok(()) => outcome is Ok && final(ctx).document.shared_with@.len() > 0
                    && grant_appended(
                    *old(ctx),
                    *final(ctx),
                    encrypted_cid_for_recipient,
                    iv_for_recipient,
                    final(ctx).document.shared_with@.last().shared_at,
                ),
                Err(InstructionError::Rejected(e)) => outcome == Err::<(), DocumentError>(e)
                    && *final(ctx) == *old(ctx),
                Err(InstructionError::Clock(_)) => outcome is Ok && *final(ctx) == *old(ctx),
            }
        }),
        recipients_distinct(old(ctx).document.shared_with@) ==> recipients_distinct(
            final(ctx).document.shared_with@,
        ),
        old(ctx).document.wf() ==> final(ctx).document.wf(),
{
    match check_share_document(&ctx.document, ctx.sharer, ctx.recipient) {
        Err(e) => {
            return Err(InstructionError::Rejected(e));
        },
        Ok(()) => {},
    }
    let now: i64 = match unix_timestamp() {
        Ok(t) => t,
        Err(e) => {
            return Err(InstructionError::Clock(e));
        },
    };
    match share_document_at(ctx, encrypted_cid_for_recipient, iv_for_recipient, now) {
        Ok(()) => Ok(()),
        Err(e) => Err(InstructionError::Rejected(e)),
    }
}

/// Whether a revocation is accepted: the caller must own the document, and
/// the recipient must hold a grant.
pub open spec fn revoke_access_outcome(
    document: Document,
    owner: Identity,
    recipient: Identity,
) -> Result<(), DocumentError> {
    if document.owner != owner {
        Err(DocumentError::NotDocumentOwner)
    } else if !has_grant(document.shared_with@, recipient) {
        Err(DocumentError::RecipientNotFound)
    } else {
        Ok(())
    }
}

/// Removes the grant of `ctx.recipient` from `ctx.document`. The other
/// grants keep their order.
pub fn revoke_access(ctx: &mut RevokeAccess) -> (r: Result<(), DocumentError>)
    ensures
        r == revoke_access_outcome(old(ctx).document, old(ctx).owner, old(ctx).recipient),
        r is Err ==> *final(ctx) == *old(ctx),
        r is Ok ==> {
            &&& final(ctx).owner == old(ctx).owner
            &&& final(ctx).recipient == old(ctx).recipient
            &&& final(ctx).document.owner == old(ctx).document.owner
            &&& final(ctx).document.file_name == old(ctx).document.file_name
            &&& final(ctx).document.file_type == old(ctx).document.file_type
            &&& final(ctx).document.encrypted_cid == old(ctx).document.encrypted_cid
            &&& final(ctx).document.iv == old(ctx).document.iv
            &&& final(ctx).document.created_at == old(ctx).document.created_at
            &&& final(ctx).document.shared_with@ == old(ctx).document.shared_with@.remove(
                first_grant(old(ctx).document.shared_with@, old(ctx).recipient),
            )
        },
        r is Ok && recipients_distinct(old(ctx).document.shared_with@) ==> !has_grant(
            final(ctx).document.shared_with@,
            old(ctx).recipient,
        ),
        recipients_distinct(old(ctx).document.shared_with@) ==> recipients_distinct(
            final(ctx).document.shared_with@,
        ),
        old(ctx).document.wf() ==> final(ctx).document.wf(),
{
    if ctx.document.owner != ctx.owner {
        return Err(DocumentError::NotDocumentOwner);
    }
    let k: usize = match ctx.document.grant_position(ctx.recipient) {
        Some(k) => k,
        None => {
            return Err(DocumentError::RecipientNotFound);
        },
    };
    proof {
        lemma_first_grant_unique(ctx.document.shared_with@, ctx.recipient, k as int);
        if recipients_distinct(ctx.document.shared_with@) {
            lemma_remove_keeps_recipients_distinct(ctx.document.shared_with@, ctx.recipient);
        }
    }
    ctx.document.shared_with.remove(k);
    Ok(())
}

/// Whether a document may be closed: the caller must own the document and
/// the catalog.
pub open spec fn close_document_outcome(
    user_documents: UserDocuments,
    document: Document,
    user: Identity,
) -> Result<(), DocumentError> {
    if document.owner != user || user_documents.owner != user {
        Err(DocumentError::NotDocumentOwner)
    } else {
        Ok(())
    }
}

/// A caller who is not the stored owner is rejected with
/// `NotDocumentOwner`, whatever the operation and its other arguments.
pub proof fn lemma_not_owner_is_rejected(
    user_documents: UserDocuments,
    document: Document,
    caller: Identity,
    recipient: Identity,
    file_name: Seq<char>,
    file_type: Seq<char>,
    encrypted_cid: Seq<char>,
    iv: Seq<char>,
)
    ensures
        user_documents.owner != caller ==> add_document_outcome(
            user_documents,
            caller,
            file_name,
            file_type,
            encrypted_cid,
            iv,
        ) == Err::<(), DocumentError>(DocumentError::NotDocumentOwner),
        document.owner != caller ==> share_document_outcome(document, caller, recipient) == Err::<
            (),
            DocumentError,
        >(DocumentError::NotDocumentOwner),
        document.owner != caller ==> revoke_access_outcome(document, caller, recipient) == Err::<
            (),
            DocumentError,
        >(DocumentError::NotDocumentOwner),
        document.owner != caller || user_documents.owner != caller ==> close_document_outcome(
            user_documents,
            document,
            caller,
        ) == Err::<(), DocumentError>(DocumentError::NotDocumentOwner),
{
}

/// The owner of a catalog with room left can add a document exactly when
/// its four texts are within their limits; one byte more in the file name
/// is rejected with `InvalidFileName`.
pub proof fn lemma_file_name_limit(
    user_documents: UserDocuments,
    file_name: Seq<char>,
    file_type: Seq<char>,
    encrypted_cid: Seq<char>,
    iv: Seq<char>,
)
    requires
        user_documents.document_count < u64::MAX,
    ensures
        encoded_len(file_name) > MAX_FILE_NAME_LEN ==> add_document_outcome(
            user_documents,
            user_documents.owner,
            file_name,
            file_type,
            encrypted_cid,
            iv,
        ) == Err::<(), DocumentError>(DocumentError::InvalidFileName),
        encoded_len(file_name) <= MAX_FILE_NAME_LEN && encoded_len(file_type) <= MAX_FILE_TYPE_LEN
            && encoded_len(encrypted_cid) <= MAX_CID_LEN && encoded_len(iv) <= MAX_IV_LEN
            ==> add_document_outcome(
            user_documents,
            user_documents.owner,
            file_name,
            file_type,
            encrypted_cid,
            iv,
        ) is Ok,
{
}

/// Two grants for two different recipients, neither of whom holds one, are
/// both accepted, whichever is made first: after the first, the second is
/// still accepted, and the document then names both.
pub proof fn lemma_shares_in_either_order(
    before: Document,
    after_first: Document,
    owner: Identity,
    first: SharedWith,
    second: SharedWith,
)
    requires
        share_document_outcome(before, owner, first.recipient) is Ok,
        share_document_outcome(before, owner, second.recipient) is Ok,
        first.recipient != second.recipient,
        after_first.owner == before.owner,
        after_first.shared_with@ == before.shared_with@.push(first),
    ensures
        share_document_outcome(after_first, owner, second.recipient) is Ok,
        has_grant(after_first.shared_with@.push(second), first.recipient),
        has_grant(after_first.shared_with@.push(second), second.recipient),
        recipients_distinct(before.shared_with@) ==> recipients_distinct(
            after_first.shared_with@.push(second),
        ),
{
    let grants = before.shared_with@;
    let one = grants.push(first);
    let two = one.push(second);
    if has_grant(one, second.recipient) {
        let i = choose|i: int| 0 <= i < one.len() && (#[trigger] one[i]).recipient == second.recipient;
        if i < grants.len() {
            assert(grants[i].recipient == second.recipient);
        }
    }
    assert(two[grants.len() as int].recipient == first.recipient);
    assert(two[one.len() as int].recipient == second.recipient);
    if recipients_distinct(grants) {
        lemma_append_keeps_recipients_distinct(grants, first);
        lemma_append_keeps_recipients_distinct(one, second);
    }
}

/// Takes `ctx.document` off the count of the catalog. The count does not
/// go below zero. The record itself is left as it is: whoever stores it
/// deletes it, with all its grants, when this returns `Ok`.
pub fn close_document(ctx: &mut CloseDocument) -> (r: Result<(), DocumentError>)
    ensures
        r == close_document_outcome(old(ctx).user_documents, old(ctx).document, old(ctx).user),
        r is Err ==> *final(ctx) == *old(ctx),
        r is Ok ==> {
            &&& final(ctx).user == old(ctx).user
            &&& final(ctx).document == old(ctx).document
            &&& final(ctx).user_documents == (UserDocuments {
                owner: old(ctx).user_documents.owner,
                document_count: if old(ctx).user_documents.document_count == 0 {
                    0u64
                } else {
                    (old(ctx).user_documents.document_count - 1) as u64
                },
            })
        },
{
    if ctx.document.owner != ctx.user || ctx.user_documents.owner != ctx.user {
        return Err(DocumentError::NotDocumentOwner);
    }
    ctx.user_documents.document_count = ctx.user_documents.document_count.saturating_sub(1);
    Ok(())
}

} // verus!
