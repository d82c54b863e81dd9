use crate::identity::Identity;
use vstd::prelude::*;

verus! {

/// Longest file name, in bytes.
pub const MAX_FILE_NAME_LEN: usize = 100;

/// Longest file type, in bytes.
pub const MAX_FILE_TYPE_LEN: usize = 50;

/// Longest encrypted locator, in bytes.
pub const MAX_CID_LEN: usize = 100;

/// Longest initialization vector, in bytes.
pub const MAX_IV_LEN: usize = 50;

/// The number of bytes that a text takes in UTF-8.
pub open spec fn encoded_len(text: Seq<char>) -> nat {
    vstd::utf8::encode_utf8(text).len()
}

/// The number of bytes of `text`.
pub fn byte_len(text: &String) -> (n: usize)
    ensures
        n == encoded_len(text@),
{
    text.as_str().as_bytes().len()
}

/// A user's catalog: how many documents the user owns.
#[derive(Clone, Copy, Debug, PartialEq, Eq, Structural)]
pub struct UserDocuments {
    pub owner: Identity,
    pub document_count: u64,
}

/// One recipient's access to a document.
#[derive(Clone, Debug, PartialEq, Eq)]
pub struct SharedWith {
    pub recipient: Identity,
    pub encrypted_cid: String,
    pub iv: String,
    pub shared_at: i64,
}

/// A document record, stored under its owner and file name.
#[derive(Clone, Debug, PartialEq, Eq)]
pub struct Document {
    pub owner: Identity,
    pub file_name: String,
    pub file_type: String,
    pub encrypted_cid: String,
    pub iv: String,
    pub created_at: i64,
    pub shared_with: Vec<SharedWith>,
}

/// Some grant in `grants` names `recipient`.
pub open spec fn has_grant(grants: Seq<SharedWith>, recipient: Identity) -> bool {
    exists|i: int| 0 <= i < grants.len() && (#[trigger] grants[i]).recipient == recipient
}

/// No two grants in `grants` name the same recipient.
pub open spec fn recipients_distinct(grants: Seq<SharedWith>) -> bool {
    forall|i: int, j: int|
        0 <= i < j < grants.len() ==> (#[trigger] grants[i]).recipient != (
        #[trigger] grants[j]).recipient
}

/// `k` is the position of the first grant in `grants` that names `recipient`.
pub open spec fn is_first_grant(grants: Seq<SharedWith>, recipient: Identity, k: int) -> bool {
    &&& 0 <= k < grants.len()
    &&& grants[k].recipient == recipient
    &&& forall|j: int| 0 <= j < k ==> (#[trigger] grants[j]).recipient != recipient
}

/// The position of the first grant that names `recipient`, where there is one.
pub open spec fn first_grant(grants: Seq<SharedWith>, recipient: Identity) -> int {
    choose|k: int| is_first_grant(grants, recipient, k)
}

/// There is only one first position.
pub proof fn lemma_first_grant_unique(grants: Seq<SharedWith>, recipient: Identity, k: int)
    requires
        is_first_grant(grants, recipient, k),
    ensures
        first_grant(grants, recipient) == k,
        has_grant(grants, recipient),
{
    let c = first_grant(grants, recipient);
    assert(is_first_grant(grants, recipient, c));
    if c < k {
        assert(grants[c].recipient != recipient);
    }
    if k < c {
        assert(grants[k].recipient != recipient);
    }
}

/// A grant for a recipient who holds none yet can be appended without
/// naming any recipient twice.
pub proof fn lemma_append_keeps_recipients_distinct(grants: Seq<SharedWith>, grant: SharedWith)
    requires
        recipients_distinct(grants),
        !has_grant(grants, grant.recipient),
    ensures
        recipients_distinct(grants.push(grant)),
        has_grant(grants.push(grant), grant.recipient),
{
    let after = grants.push(grant);
    assert forall|i: int, j: int| 0 <= i < j < after.len() implies (#[trigger] after[i]).recipient
        != (#[trigger] after[j]).recipient by {
        if j == grants.len() {
            assert(grants[i].recipient != grant.recipient);
        } else {
            assert(grants[i].recipient != grants[j].recipient);
        }
    }
    assert(after[grants.len() as int].recipient == grant.recipient);
}

/// Where no recipient is named twice, removing the grant of a recipient
/// leaves none for that recipient, and still names no recipient twice.
pub proof fn lemma_remove_keeps_recipients_distinct(grants: Seq<SharedWith>, recipient: Identity)
    requires
        recipients_distinct(grants),
        has_grant(grants, recipient),
    ensures
        recipients_distinct(grants.remove(first_grant(grants, recipient))),
        !has_grant(grants.remove(first_grant(grants, recipient)), recipient),
        grants.remove(first_grant(grants, recipient)).len() + 1 == grants.len(),
{
    let w = choose|i: int| 0 <= i < grants.len() && (#[trigger] grants[i]).recipient == recipient;
    assert(is_first_grant(grants, recipient, w)) by {
        assert forall|j: int| 0 <= j < w implies (#[trigger] grants[j]).recipient != recipient by {
            assert(grants[j].recipient != grants[w].recipient);
        }
    }
    let k = first_grant(grants, recipient);
    let after = grants.remove(k);
    assert forall|i: int, j: int| 0 <= i < j < after.len() implies (#[trigger] after[i]).recipient
        != (#[trigger] after[j]).recipient by {
        let oi = if i < k { i } else { i + 1 };
        let oj = if j < k { j } else { j + 1 };
        assert(grants[oi].recipient != grants[oj].recipient);
    }
    assert forall|i: int| 0 <= i < after.len() implies (#[trigger] after[i]).recipient
        != recipient by {
        let oi = if i < k { i } else { i + 1 };
        if oi < k {
            assert(grants[oi].recipient != grants[k].recipient);
        } else {
            assert(grants[k].recipient != grants[oi].recipient);
        }
    }
}

impl Document {
    /// The stored text fields are within their limits and no recipient is
    /// named twice.
    pub open spec fn wf(&self) -> bool {
        &&& encoded_len(self.file_name@) <= MAX_FILE_NAME_LEN
        &&& encoded_len(self.file_type@) <= MAX_FILE_TYPE_LEN
        &&& encoded_len(self.encrypted_cid@) <= MAX_CID_LEN
        &&& encoded_len(self.iv@) <= MAX_IV_LEN
        &&& recipients_distinct(self.shared_with@)
    }

    /// The record is stored under `owner` and `file_name`.
    pub open spec fn has_key(&self, owner: Identity, file_name: Seq<char>) -> bool {
        self.owner == owner && self.file_name@ == file_name
    }

    /// A record with no content, as storage hands it out before the first write.
    pub fn blank() -> (doc: Document)
        ensures
            doc.owner == (Identity { hi: 0, lo: 0 }),
            doc.file_name@ == Seq::<char>::empty(),
            doc.file_type@ == Seq::<char>::empty(),
            doc.encrypted_cid@ == Seq::<char>::empty(),
            doc.iv@ == Seq::<char>::empty(),
            doc.created_at == 0,
            doc.shared_with@ == Seq::<SharedWith>::empty(),
    {
        Document {
            owner: Identity { hi: 0, lo: 0 },
            file_name: String::new(),
            file_type: String::new(),
            encrypted_cid: String::new(),
            iv: String::new(),
            created_at: 0,
            shared_with: Vec::new(),
        }
    }

    /// The position of the grant that names `recipient`: the first one, if
    /// there are several.
    pub fn grant_position(&self, recipient: Identity) -> (found: Option<usize>)
        ensures
            found is Some <==> has_grant(self.shared_with@, recipient),
            found matches Some(k) ==> is_first_grant(self.shared_with@, recipient, k as int),
    {
        let mut i: usize = 0;
        while i < self.shared_with.len()
            invariant
                i <= self.shared_with@.len(),
                forall|j: int| 0 <= j < i ==> (#[trigger] self.shared_with@[j]).recipient != recipient,
            decreases self.shared_with@.len() - i,
        {
            if self.shared_with[i].recipient == recipient {
                return Some(i);
            }
            i += 1;
        }
        None
    }

    /// Whether `recipient` holds a grant.
    pub fn is_shared_with(&self, recipient: Identity) -> (yes: bool)
        ensures
            yes == has_grant(self.shared_with@, recipient),
    {
        self.grant_position(recipient).is_some()
    }
}

} // verus!
