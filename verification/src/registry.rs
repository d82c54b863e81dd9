use crate::error::DocumentError;
use crate::identity::Identity;
use crate::instructions::{
    add_document_at, add_document_outcome, close_document, initialize, revoke_access,
    revoke_access_outcome, share_document_at, share_document_outcome, AddDocument, CloseDocument,
    Initialize, RevokeAccess, ShareDocument,
};
use crate::records::{
    first_grant, has_grant, recipients_distinct, Document, SharedWith, UserDocuments,
};
use vstd::prelude::*;

verus! {

/// The number of records in `docs` that `owner` owns.
pub open spec fn count_owned(docs: Seq<Document>, owner: Identity) -> nat
    decreases docs.len(),
{
    if docs.len() == 0 {
        0
    } else {
        count_owned(docs.drop_last(), owner) + if docs.last().owner == owner {
            1nat
        } else {
            0nat
        }
    }
}

/// Some catalog in `catalogs` belongs to `owner`.
pub open spec fn has_catalog(catalogs: Seq<UserDocuments>, owner: Identity) -> bool {
    exists|i: int| 0 <= i < catalogs.len() && (#[trigger] catalogs[i]).owner == owner
}

/// The position of the catalog of `owner`, where there is one.
pub open spec fn catalog_slot(catalogs: Seq<UserDocuments>, owner: Identity) -> int {
    choose|i: int| 0 <= i < catalogs.len() && (#[trigger] catalogs[i]).owner == owner
}

/// Some record in `docs` is stored under `owner` and `file_name`.
pub open spec fn has_document(docs: Seq<Document>, owner: Identity, file_name: Seq<char>) -> bool {
    exists|i: int| 0 <= i < docs.len() && (#[trigger] docs[i]).has_key(owner, file_name)
}

/// The position of the record stored under `owner` and `file_name`, where
/// there is one.
pub open spec fn document_slot(docs: Seq<Document>, owner: Identity, file_name: Seq<char>) -> int {
    choose|i: int| 0 <= i < docs.len() && (#[trigger] docs[i]).has_key(owner, file_name)
}

/// No two catalogs belong to the same user.
pub open spec fn catalog_owners_distinct(catalogs: Seq<UserDocuments>) -> bool {
    forall|i: int, j: int|
        0 <= i < j < catalogs.len() ==> (#[trigger] catalogs[i]).owner != (
        #[trigger] catalogs[j]).owner
}

/// No two records are stored under the same owner and file name.
pub open spec fn document_keys_distinct(docs: Seq<Document>) -> bool {
    forall|i: int, j: int|
        0 <= i < j < docs.len() ==> !(#[trigger] docs[i]).has_key(
            (#[trigger] docs[j]).owner,
            docs[j].file_name@,
        )
}

/// `after` is `before` but for its grants.
pub open spec fn same_but_grants(before: Document, after: Document) -> bool {
    &&& after.owner == before.owner
    &&& after.file_name == before.file_name
    &&& after.file_type == before.file_type
    &&& after.encrypted_cid == before.encrypted_cid
    &&& after.iv == before.iv
    &&& after.created_at == before.created_at
}

/// Appending a record adds one to the count of its owner and nothing to
/// any other.
pub proof fn lemma_count_push(docs: Seq<Document>, doc: Document, owner: Identity)
    ensures
        count_owned(docs.push(doc), owner) == count_owned(docs, owner) + if doc.owner == owner {
            1nat
        } else {
            0nat
        },
{
    assert(docs.push(doc).drop_last() =~= docs);
}

/// Removing a record takes one off the count of its owner and nothing off
/// any other.
pub proof fn lemma_count_remove(docs: Seq<Document>, i: int, owner: Identity)
    requires
        0 <= i < docs.len(),
    ensures
        count_owned(docs, owner) == count_owned(docs.remove(i), owner) + if docs[i].owner
            == owner {
            1nat
        } else {
            0nat
        },
    decreases docs.len(),
{
    if i == docs.len() - 1 {
        assert(docs.remove(i) =~= docs.drop_last());
    } else {
        lemma_count_remove(docs.drop_last(), i, owner);
        assert(docs.remove(i).drop_last() =~= docs.drop_last().remove(i));
        assert(docs.remove(i).last() == docs.last());
    }
}

/// Replacing a record by one of the same owner changes no count.
pub proof fn lemma_count_update(docs: Seq<Document>, i: int, doc: Document, owner: Identity)
    requires
        0 <= i < docs.len(),
        doc.owner == docs[i].owner,
    ensures
        count_owned(docs.update(i, doc), owner) == count_owned(docs, owner),
    decreases docs.len(),
{
    if i == docs.len() - 1 {
        assert(docs.update(i, doc).drop_last() =~= docs.drop_last());
    } else {
        lemma_count_update(docs.drop_last(), i, doc, owner);
        assert(docs.update(i, doc).drop_last() =~= docs.drop_last().update(i, doc));
    }
}

/// A user who owns no record has a count of zero.
pub proof fn lemma_count_none(docs: Seq<Document>, owner: Identity)
    requires
        forall|i: int| 0 <= i < docs.len() ==> (#[trigger] docs[i]).owner != owner,
    ensures
        count_owned(docs, owner) == 0,
    decreases docs.len(),
{
    if docs.len() > 0 {
        assert(docs.last() == docs[docs.len() - 1]);
        assert forall|i: int| 0 <= i < docs.drop_last().len() implies (
        #[trigger] docs.drop_last()[i]).owner != owner by {
            assert(docs.drop_last()[i] == docs[i]);
        }
        lemma_count_none(docs.drop_last(), owner);
    }
}

/// Where owners are distinct, the catalog of a user has one position.
pub proof fn lemma_catalog_slot(catalogs: Seq<UserDocuments>, owner: Identity, i: int)
    requires
        catalog_owners_distinct(catalogs),
        0 <= i < catalogs.len(),
        catalogs[i].owner == owner,
    ensures
        has_catalog(catalogs, owner),
        catalog_slot(catalogs, owner) == i,
{
    let c = catalog_slot(catalogs, owner);
    assert(0 <= c < catalogs.len() && catalogs[c].owner == owner);
    if c < i {
        assert(catalogs[c].owner != catalogs[i].owner);
    }
    if i < c {
        assert(catalogs[i].owner != catalogs[c].owner);
    }
}

/// Where keys are distinct, the record under a key has one position.
pub proof fn lemma_document_slot(
    docs: Seq<Document>,
    owner: Identity,
    file_name: Seq<char>,
    i: int,
)
    requires
        document_keys_distinct(docs),
        0 <= i < docs.len(),
        docs[i].has_key(owner, file_name),
    ensures
        has_document(docs, owner, file_name),
        document_slot(docs, owner, file_name) == i,
{
    let c = document_slot(docs, owner, file_name);
    assert(0 <= c < docs.len() && docs[c].has_key(owner, file_name));
    if c < i {
        assert(!docs[c].has_key(docs[i].owner, docs[i].file_name@));
    }
    if i < c {
        assert(!docs[i].has_key(docs[c].owner, docs[c].file_name@));
    }
}

/// Replacing a catalog by one of the same owner moves no catalog.
pub proof fn lemma_catalog_after_update(
    catalogs: Seq<UserDocuments>,
    i: int,
    catalog: UserDocuments,
    owner: Identity,
)
    requires
        catalog_owners_distinct(catalogs),
        0 <= i < catalogs.len(),
        catalog.owner == catalogs[i].owner,
    ensures
        catalog_owners_distinct(catalogs.update(i, catalog)),
        has_catalog(catalogs.update(i, catalog), owner) == has_catalog(catalogs, owner),
        has_catalog(catalogs, owner) ==> catalog_slot(catalogs.update(i, catalog), owner)
            == catalog_slot(catalogs, owner),
{
    let after = catalogs.update(i, catalog);
    assert forall|a: int, b: int| 0 <= a < b < after.len() implies (#[trigger] after[a]).owner != (
    #[trigger] after[b]).owner by {
        assert(after[a].owner == catalogs[a].owner);
        assert(after[b].owner == catalogs[b].owner);
    }
    if has_catalog(catalogs, owner) {
        let k = catalog_slot(catalogs, owner);
        assert(after[k].owner == owner);
        lemma_catalog_slot(after, owner, k);
    }
    if has_catalog(after, owner) {
        let k = catalog_slot(after, owner);
        assert(catalogs[k].owner == owner);
    }
}

/// Appending the catalog of a user who had none moves no other catalog.
pub proof fn lemma_catalog_after_push(
    catalogs: Seq<UserDocuments>,
    catalog: UserDocuments,
    owner: Identity,
)
    requires
        catalog_owners_distinct(catalogs),
        !has_catalog(catalogs, catalog.owner),
    ensures
        catalog_owners_distinct(catalogs.push(catalog)),
        owner == catalog.owner ==> has_catalog(catalogs.push(catalog), owner) && catalog_slot(
            catalogs.push(catalog),
            owner,
        ) == catalogs.len(),
        owner != catalog.owner ==> has_catalog(catalogs.push(catalog), owner) == has_catalog(
            catalogs,
            owner,
        ),
        owner != catalog.owner && has_catalog(catalogs, owner) ==> catalog_slot(
            catalogs.push(catalog),
            owner,
        ) == catalog_slot(catalogs, owner),
{
    let after = catalogs.push(catalog);
    assert forall|a: int, b: int| 0 <= a < b < after.len() implies (#[trigger] after[a]).owner != (
    #[trigger] after[b]).owner by {
        if b == catalogs.len() {
            assert(catalogs[a].owner != catalog.owner);
        } else {
            assert(catalogs[a].owner != catalogs[b].owner);
        }
    }
    if owner == catalog.owner {
        assert(after[catalogs.len() as int].owner == owner);
        lemma_catalog_slot(after, owner, catalogs.len() as int);
    } else {
        if has_catalog(catalogs, owner) {
            let k = catalog_slot(catalogs, owner);
            assert(after[k].owner == owner);
            lemma_catalog_slot(after, owner, k);
        }
        if has_catalog(after, owner) {
            let k = catalog_slot(after, owner);
            assert(catalogs[k].owner == owner);
        }
    }
}

/// Replacing a record by one with the same key moves no record.
pub proof fn lemma_document_after_update(
    docs: Seq<Document>,
    i: int,
    doc: Document,
    owner: Identity,
    file_name: Seq<char>,
)
    requires
        document_keys_distinct(docs),
        0 <= i < docs.len(),
        doc.has_key(docs[i].owner, docs[i].file_name@),
    ensures
        document_keys_distinct(docs.update(i, doc)),
        has_document(docs.update(i, doc), owner, file_name) == has_document(docs, owner, file_name),
        has_document(docs, owner, file_name) ==> document_slot(docs.update(i, doc), owner, file_name)
            == document_slot(docs, owner, file_name),
{
    let after = docs.update(i, doc);
    assert forall|a: int, b: int| 0 <= a < b < after.len() implies !(#[trigger] after[a]).has_key(
        (#[trigger] after[b]).owner,
        after[b].file_name@,
    ) by {
        assert(!docs[a].has_key(docs[b].owner, docs[b].file_name@));
    }
    if has_document(docs, owner, file_name) {
        let k = document_slot(docs, owner, file_name);
        assert(after[k].has_key(owner, file_name));
        lemma_document_slot(after, owner, file_name, k);
    }
    if has_document(after, owner, file_name) {
        let k = document_slot(after, owner, file_name);
        assert(docs[k].has_key(owner, file_name));
    }
}

/// Appending a record under a free key moves no other record.
pub proof fn lemma_document_after_push(
    docs: Seq<Document>,
    doc: Document,
    owner: Identity,
    file_name: Seq<char>,
)
    requires
        document_keys_distinct(docs),
        !has_document(docs, doc.owner, doc.file_name@),
    ensures
        document_keys_distinct(docs.push(doc)),
        doc.has_key(owner, file_name) ==> has_document(docs.push(doc), owner, file_name)
            && document_slot(docs.push(doc), owner, file_name) == docs.len(),
        !doc.has_key(owner, file_name) ==> has_document(docs.push(doc), owner, file_name)
            == has_document(docs, owner, file_name),
        !doc.has_key(owner, file_name) && has_document(docs, owner, file_name) ==> document_slot(
            docs.push(doc),
            owner,
            file_name,
        ) == document_slot(docs, owner, file_name),
{
    let after = docs.push(doc);
    assert forall|a: int, b: int| 0 <= a < b < after.len() implies !(#[trigger] after[a]).has_key(
        (#[trigger] after[b]).owner,
        after[b].file_name@,
    ) by {
        if b == docs.len() {
            assert(!docs[a].has_key(doc.owner, doc.file_name@));
        } else {
            assert(!docs[a].has_key(docs[b].owner, docs[b].file_name@));
        }
    }
    if doc.has_key(owner, file_name) {
        assert(after[docs.len() as int].has_key(owner, file_name));
        lemma_document_slot(after, owner, file_name, docs.len() as int);
    } else {
        if has_document(docs, owner, file_name) {
            let k = document_slot(docs, owner, file_name);
            assert(after[k].has_key(owner, file_name));
            lemma_document_slot(after, owner, file_name, k);
        }
        if has_document(after, owner, file_name) {
            let k = document_slot(after, owner, file_name);
            assert(docs[k].has_key(owner, file_name));
        }
    }
}

/// Removing a record leaves its key free and every other record in place.
pub proof fn lemma_document_after_remove(
    docs: Seq<Document>,
    i: int,
    owner: Identity,
    file_name: Seq<char>,
)
    requires
        document_keys_distinct(docs),
        0 <= i < docs.len(),
    ensures
        document_keys_distinct(docs.remove(i)),
        docs[i].has_key(owner, file_name) ==> !has_document(docs.remove(i), owner, file_name),
        !docs[i].has_key(owner, file_name) ==> has_document(docs.remove(i), owner, file_name)
            == has_document(docs, owner, file_name),
        !docs[i].has_key(owner, file_name) && has_document(docs, owner, file_name)
            ==> docs.remove(i)[document_slot(docs.remove(i), owner, file_name)]
            == docs[document_slot(docs, owner, file_name)],
{
    let after = docs.remove(i);
    assert forall|a: int, b: int| 0 <= a < b < after.len() implies !(#[trigger] after[a]).has_key(
        (#[trigger] after[b]).owner,
        after[b].file_name@,
    ) by {
        let oa = if a < i { a } else { a + 1 };
        let ob = if b < i { b } else { b + 1 };
        assert(!docs[oa].has_key(docs[ob].owner, docs[ob].file_name@));
    }
    if has_document(after, owner, file_name) {
        let k = document_slot(after, owner, file_name);
        let ok = if k < i { k } else { k + 1 };
        assert(docs[ok].has_key(owner, file_name));
        lemma_document_slot(docs, owner, file_name, ok);
        if docs[i].has_key(owner, file_name) {
            lemma_document_slot(docs, owner, file_name, i);
        }
    }
    if has_document(docs, owner, file_name) && !docs[i].has_key(owner, file_name) {
        let ok = document_slot(docs, owner, file_name);
        let k = if ok < i { ok } else { ok - 1 };
        assert(after[k].has_key(owner, file_name));
        lemma_document_slot(after, owner, file_name, k);
    }
}

/// A keyed store of catalogs and document records.
pub struct Registry {
    catalogs: Vec<UserDocuments>,
    documents: Vec<Document>,
}

impl Registry {
    /// The catalogs, in the order in which they were created.
    pub closed spec fn catalogs(&self) -> Seq<UserDocuments> {
        self.catalogs@
    }

    /// The live document records.
    pub closed spec fn documents(&self) -> Seq<Document> {
        self.documents@
    }

    /// The invariant of the store: keys are unique, every record is well
    /// formed and belongs to a user with a catalog, and every catalog
    /// counts exactly the records of its owner.
    pub open spec fn wf(&self) -> bool {
        &&& catalog_owners_distinct(self.catalogs())
        &&& document_keys_distinct(self.documents())
        &&& forall|i: int| 0 <= i < self.documents().len() ==> (#[trigger] self.documents()[i]).wf()
        &&& forall|i: int|
            0 <= i < self.documents().len() ==> has_catalog(
                self.catalogs(),
                (#[trigger] self.documents()[i]).owner,
            )
        &&& forall|i: int|
            0 <= i < self.catalogs().len() ==> (#[trigger] self.catalogs()[i]).document_count
                == count_owned(self.documents(), self.catalogs()[i].owner)
    }

    /// The count in the catalog of `owner`, if `owner` has one.
    pub open spec fn count_of(&self, owner: Identity) -> Option<u64> {
        if has_catalog(self.catalogs(), owner) {
            Some(self.catalogs()[catalog_slot(self.catalogs(), owner)].document_count)
        } else {
            None
        }
    }

    /// The record stored under `owner` and `file_name`, if there is one.
    pub open spec fn document_of(&self, owner: Identity, file_name: Seq<char>) -> Option<Document> {
        if has_document(self.documents(), owner, file_name) {
            Some(self.documents()[document_slot(self.documents(), owner, file_name)])
        } else {
            None
        }
    }

    /// An empty store.
    pub fn new() -> (registry: Registry)
        ensures
            registry.wf(),
            registry.catalogs() == Seq::<UserDocuments>::empty(),
            registry.documents() == Seq::<Document>::empty(),
    {
        Registry { catalogs: Vec::new(), documents: Vec::new() }
    }

    fn find_catalog(&self, owner: Identity) -> (found: Option<usize>)
        requires
            self.wf(),
        ensures
            found is Some <==> has_catalog(self.catalogs(), owner),
            found matches Some(i) ==> i == catalog_slot(self.catalogs(), owner) && i
                < self.catalogs().len() && self.catalogs()[i as int].owner == owner,
    {
        let mut i: usize = 0;
        while i < self.catalogs.len()
            invariant
                self.wf(),
                i <= self.catalogs@.len(),
                forall|j: int| 0 <= j < i ==> (#[trigger] self.catalogs@[j]).owner != owner,
            decreases self.catalogs@.len() - i,
        {
            if self.catalogs[i].owner == owner {
                proof {
                    lemma_catalog_slot(self.catalogs@, owner, i as int);
                }
                return Some(i);
            }
            i += 1;
        }
        None
    }

    fn find_document(&self, owner: Identity, file_name: &String) -> (found: Option<usize>)
        requires
            self.wf(),
        ensures
            found is Some <==> has_document(self.documents(), owner, file_name@),
            found matches Some(i) ==> i == document_slot(self.documents(), owner, file_name@) && i
                < self.documents().len() && self.documents()[i as int].has_key(owner, file_name@),
    {
        let mut i: usize = 0;
        while i < self.documents.len()
            invariant
                self.wf(),
                i <= self.documents@.len(),
                forall|j: int|
                    0 <= j < i ==> !(#[trigger] self.documents@[j]).has_key(owner, file_name@),
            decreases self.documents@.len() - i,
        {
            let doc = &self.documents[i];
            if doc.owner == owner && doc.file_name == *file_name {
                proof {
                    lemma_document_slot(self.documents@, owner, file_name@, i as int);
                }
                return Some(i);
            }
            i += 1;
        }
        None
    }

    /// The number of documents that the catalog of `owner` counts.
    pub fn document_count(&self, owner: Identity) -> (count: Option<u64>)
        requires
            self.wf(),
        ensures
            count == self.count_of(owner),
            count matches Some(n) ==> n == count_owned(self.documents(), owner),
    {
        match self.find_catalog(owner) {
            Some(i) => Some(self.catalogs[i].document_count),
            None => None,
        }
    }

    /// The record stored under `owner` and `file_name`.
    pub fn document(&self, owner: Identity, file_name: &String) -> (found: Option<&Document>)
        requires
            self.wf(),
        ensures
            match found {
                Some(doc) => self.document_of(owner, file_name@) == Some(*doc),
                None => self.document_of(owner, file_name@) is None,
            },
    {
        match self.find_document(owner, file_name) {
            Some(i) => Some(&self.documents[i]),
            None => None,
        }
    }

    /// Creates the catalog of `caller`, with no documents. Each user has
    /// at most one catalog.
    pub fn initialize(&mut self, caller: Identity) -> (r: Result<(), DocumentError>)
        requires
            old(self).wf(),
        ensures
            final(self).wf(),
            r == if has_catalog(old(self).catalogs(), caller) {
                Err::<(), DocumentError>(DocumentError::CatalogAlreadyExists)
            } else {
                Ok(())
            },
            final(self).documents() == old(self).documents(),
            has_catalog(final(self).catalogs(), caller),
            r is Err ==> final(self).catalogs() == old(self).catalogs(),
            r is Ok ==> final(self).catalogs() == old(self).catalogs().push(
                UserDocuments { owner: caller, document_count: 0 },
            ),
            forall|o: Identity| #[trigger]
                final(self).count_of(o) == if r is Ok && o == caller {
                    Some(0u64)
                } else {
                    old(self).count_of(o)
                },
    {
        if self.find_catalog(caller).is_some() {
            return Err(DocumentError::CatalogAlreadyExists);
        }
        let mut ctx = Initialize {
            user_documents: UserDocuments { owner: caller, document_count: 0 },
            user: caller,
        };
        match initialize(&mut ctx) {
            Err(e) => {
                return Err(e);
            },
            Ok(()) => {},
        }
        proof {
            assert forall|i: int| 0 <= i < self.documents@.len() implies (
            #[trigger] self.documents@[i]).owner != caller by {
                assert(has_catalog(self.catalogs@, self.documents@[i].owner));
            }
            lemma_count_none(self.documents@, caller);
        }
        self.catalogs.push(ctx.user_documents);
        proof {
            let before = old(self).catalogs@;
            let after = self.catalogs@;
            assert forall|o: Identity| #[trigger]
                self.count_of(o) == if o == caller {
                    Some(0u64)
                } else {
                    old(self).count_of(o)
                } by {
                lemma_catalog_after_push(before, ctx.user_documents, o);
            }
            lemma_catalog_after_push(before, ctx.user_documents, caller);
            assert forall|i: int| 0 <= i < self.documents@.len() implies has_catalog(
                after,
                (#[trigger] self.documents@[i]).owner,
            ) by {
                let k = catalog_slot(before, self.documents@[i].owner);
                assert(has_catalog(before, self.documents@[i].owner));
                assert(after[k] == before[k]);
            }
        }
        Ok(())
    }

    /// Whether `add_document_at` accepts, and if not, why: the catalog of the
    /// caller must exist, the key must be free, and the record must pass
    /// the tests of `add_document_outcome`.
    pub open spec fn add_outcome(
        &self,
        caller: Identity,
        file_name: Seq<char>,
        file_type: Seq<char>,
        encrypted_cid: Seq<char>,
        iv: Seq<char>,
    ) -> Result<(), DocumentError> {
        if !has_catalog(self.catalogs(), caller) {
            Err(DocumentError::CatalogNotFound)
        } else if has_document(self.documents(), caller, file_name) {
            Err(DocumentError::DuplicateDocument)
        } else {
            add_document_outcome(
                self.catalogs()[catalog_slot(self.catalogs(), caller)],
                caller,
                file_name,
                file_type,
                encrypted_cid,
                iv,
            )
        }
    }

    /// Stores a new record under `caller` and `file_name`, created at
    /// `now` and shared with nobody, and adds one to the count of `caller`.
    pub fn add_document_at(
        &mut self,
        caller: Identity,
        file_name: String,
        file_type: String,
        encrypted_cid: String,
        iv: String,
        now: i64,
    ) -> (r: Result<(), DocumentError>)
        requires
            old(self).wf(),
        ensures
            final(self).wf(),
            r == old(self).add_outcome(caller, file_name@, file_type@, encrypted_cid@, iv@),
            r is Err ==> final(self).catalogs() == old(self).catalogs() && final(self).documents()
                == old(self).documents(),
            r is Ok ==> {
                let slot = catalog_slot(old(self).catalogs(), caller);
                let added = final(self).documents().last();
                &&& final(self).catalogs() == old(self).catalogs().update(
                    slot,
                    UserDocuments {
                        owner: caller,
                        document_count: (old(self).catalogs()[slot].document_count + 1) as u64,
                    },
                )
                &&& final(self).documents() == old(self).documents().push(added)
                &&& added.owner == caller
                &&& added.file_name == file_name
                &&& added.file_type == file_type
                &&& added.encrypted_cid == encrypted_cid
                &&& added.iv == iv
                &&& added.created_at == now
                &&& added.shared_with@ == Seq::<SharedWith>::empty()
                &&& forall|o: Identity| #[trigger]
                    final(self).count_of(o) == if o == caller {
                        Some((old(self).catalogs()[slot].document_count + 1) as u64)
                    } else {
                        old(self).count_of(o)
                    }
                &&& forall|o: Identity, n: Seq<char>| #[trigger]
                    final(self).document_of(o, n) == if o == caller && n == file_name@ {
                        Some(added)
                    } else {
                        old(self).document_of(o, n)
                    }
            },
    {
        let slot: usize = match self.find_catalog(caller) {
            Some(i) => i,
            None => {
                return Err(DocumentError::CatalogNotFound);
            },
        };
        if self.find_document(caller, &file_name).is_some() {
            return Err(DocumentError::DuplicateDocument);
        }
        let ghost name = file_name@;
        let mut ctx = AddDocument {
            user_documents: self.catalogs[slot],
            document: Document::blank(),
            user: caller,
        };
        match add_document_at(&mut ctx, file_name, file_type, encrypted_cid, iv, now) {
            Err(e) => {
                return Err(e);
            },
            Ok(()) => {},
        }
        let catalog = ctx.user_documents;
        let doc = ctx.document;
        self.catalogs.set(slot, catalog);
        self.documents.push(doc);
        proof {
            let old_cats = old(self).catalogs@;
            let old_docs = old(self).documents@;
            let cats = self.catalogs@;
            let docs = self.documents@;
            assert(docs.last() == doc);
            assert forall|o: Identity| #[trigger]
                self.count_of(o) == if o == caller {
                    Some((old_cats[slot as int].document_count + 1) as u64)
                } else {
                    old(self).count_of(o)
                } by {
                lemma_catalog_after_update(old_cats, slot as int, catalog, o);
            }
            assert forall|o: Identity, n: Seq<char>| #[trigger]
                self.document_of(o, n) == if o == caller && n == name {
                    Some(doc)
                } else {
                    old(self).document_of(o, n)
                } by {
                lemma_document_after_push(old_docs, doc, o, n);
            }
            lemma_document_after_push(old_docs, doc, caller, name);
            lemma_catalog_after_update(old_cats, slot as int, catalog, caller);
            assert forall|i: int| 0 <= i < docs.len() implies has_catalog(
                cats,
                (#[trigger] docs[i]).owner,
            ) by {
                if i == old_docs.len() {
                    assert(cats[slot as int].owner == caller);
                } else {
                    assert(docs[i] == old_docs[i]);
                    assert(has_catalog(old_cats, old_docs[i].owner));
                    let k = catalog_slot(old_cats, old_docs[i].owner);
                    assert(cats[k].owner == old_cats[k].owner);
                }
            }
            assert forall|i: int| 0 <= i < cats.len() implies (#[trigger] cats[i]).document_count
                == count_owned(docs, cats[i].owner) by {
                lemma_count_push(old_docs, doc, cats[i].owner);
                assert(old_cats[i].document_count == count_owned(old_docs, old_cats[i].owner));
                if i != slot {
                    assert(old_cats[i].owner != old_cats[slot as int].owner);
                }
            }
            assert forall|i: int| 0 <= i < docs.len() implies (#[trigger] docs[i]).wf() by {
                if i < old_docs.len() {
                    assert(docs[i] == old_docs[i]);
                }
            }
        }
        Ok(())
    }

    /// Whether `share_document_at` accepts, and if not, why: the record must
    /// exist and pass the tests of `share_document_outcome`.
    pub open spec fn share_outcome(
        &self,
        caller: Identity,
        owner: Identity,
        file_name: Seq<char>,
        recipient: Identity,
    ) -> Result<(), DocumentError> {
        if !has_document(self.documents(), owner, file_name) {
            Err(DocumentError::DocumentNotFound)
        } else {
            share_document_outcome(
                self.documents()[document_slot(self.documents(), owner, file_name)],
                caller,
                recipient,
            )
        }
    }

    /// Appends a grant for `recipient`, made at `now`, to the record
    /// stored under `owner` and `file_name`. Only its owner may do so.
    pub fn share_document_at(
        &mut self,
        caller: Identity,
        owner: Identity,
        file_name: &String,
        recipient: Identity,
        encrypted_cid_for_recipient: String,
        iv_for_recipient: String,
        now: i64,
    ) -> (r: Result<(), DocumentError>)
        requires
            old(self).wf(),
        ensures
            final(self).wf(),
            r == old(self).share_outcome(caller, owner, file_name@, recipient),
            final(self).catalogs() == old(self).catalogs(),
            r is Err ==> final(self).documents() == old(self).documents(),
            r is Ok ==> {
                let slot = document_slot(old(self).documents(), owner, file_name@);
                let before = old(self).documents()[slot];
                let after = final(self).documents()[slot];
                &&& final(self).documents() == old(self).documents().update(slot, after)
                &&& same_but_grants(before, after)
                &&& after.shared_with@ == before.shared_with@.push(
                    SharedWith {
                        recipient,
                        encrypted_cid: encrypted_cid_for_recipient,
                        iv: iv_for_recipient,
                        shared_at: now,
                    },
                )
                &&& has_grant(after.shared_with@, recipient)
                &&& forall|o: Identity, n: Seq<char>| #[trigger]
                    final(self).document_of(o, n) == if o == owner && n == file_name@ {
                        Some(after)
                    } else {
                        old(self).document_of(o, n)
                    }
            },
    {
        let slot: usize = match self.find_document(owner, file_name) {
            Some(i) => i,
            None => {
                return Err(DocumentError::DocumentNotFound);
            },
        };
        let doc = self.documents.remove(slot);
        let mut ctx = ShareDocument { document: doc, sharer: caller, recipient };
        let r = share_document_at(&mut ctx, encrypted_cid_for_recipient, iv_for_recipient, now);
        let doc = ctx.document;
        self.documents.insert(slot, doc);
        proof {
            let old_docs = old(self).documents@;
            assert(self.documents@ =~= old_docs.update(slot as int, doc));
            if r is Err {
                assert(self.documents@ =~= old_docs);
            } else {
                let grants = doc.shared_with@;
                assert(grants[grants.len() - 1].recipient == recipient);
                assert forall|o: Identity, n: Seq<char>| #[trigger]
                    self.document_of(o, n) == if o == owner && n == file_name@ {
                        Some(doc)
                    } else {
                        old(self).document_of(o, n)
                    } by {
                    lemma_document_after_update(old_docs, slot as int, doc, o, n);
                    lemma_document_after_update(old_docs, slot as int, doc, owner, file_name@);
                }
            }
            self.lemma_replaced_keeps_wf(*old(self), slot as int);
        }
        r
    }

    /// Whether `revoke_access` accepts, and if not, why: the record must
    /// exist and pass the tests of `revoke_access_outcome`.
    pub open spec fn revoke_outcome(
        &self,
        caller: Identity,
        owner: Identity,
        file_name: Seq<char>,
        recipient: Identity,
    ) -> Result<(), DocumentError> {
        if !has_document(self.documents(), owner, file_name) {
            Err(DocumentError::DocumentNotFound)
        } else {
            revoke_access_outcome(
                self.documents()[document_slot(self.documents(), owner, file_name)],
                caller,
                recipient,
            )
        }
    }

    /// Removes the grant of `recipient` from the record stored under
    /// `owner` and `file_name`. Only its owner may do so.
    pub fn revoke_access(
        &mut self,
        caller: Identity,
        owner: Identity,
        file_name: &String,
        recipient: Identity,
    ) -> (r: Result<(), DocumentError>)
        requires
            old(self).wf(),
        ensures
            final(self).wf(),
            r == old(self).revoke_outcome(caller, owner, file_name@, recipient),
            final(self).catalogs() == old(self).catalogs(),
            r is Err ==> final(self).documents() == old(self).documents(),
            r is Ok ==> {
                let slot = document_slot(old(self).documents(), owner, file_name@);
                let before = old(self).documents()[slot];
                let after = final(self).documents()[slot];
                &&& final(self).documents() == old(self).documents().update(slot, after)
                &&& same_but_grants(before, after)
                &&& after.shared_with@ == before.shared_with@.remove(
                    first_grant(before.shared_with@, recipient),
                )
                &&& !has_grant(after.shared_with@, recipient)
                &&& forall|o: Identity, n: Seq<char>| #[trigger]
                    final(self).document_of(o, n) == if o == owner && n == file_name@ {
                        Some(after)
                    } else {
                        old(self).document_of(o, n)
                    }
            },
    {
        let slot: usize = match self.find_document(owner, file_name) {
            Some(i) => i,
            None => {
                return Err(DocumentError::DocumentNotFound);
            },
        };
        let doc = self.documents.remove(slot);
        let mut ctx = RevokeAccess { document: doc, owner: caller, recipient };
        let r = revoke_access(&mut ctx);
        let doc = ctx.document;
        self.documents.insert(slot, doc);
        proof {
            let old_docs = old(self).documents@;
            assert(self.documents@ =~= old_docs.update(slot as int, doc));
            if r is Err {
                assert(self.documents@ =~= old_docs);
            } else {
                
                assert forall|o: Identity, n: Seq<char>| #[trigger]
                    self.document_of(o, n) == if o == owner && n == file_name@ {
                        Some(doc)
                    } else {
                        old(self).document_of(o, n)
                    } by {
                    lemma_document_after_update(old_docs, slot as int, doc, o, n);
                    lemma_document_after_update(old_docs, slot as int, doc, owner, file_name@);
                }
            }
            self.lemma_replaced_keeps_wf(*old(self), slot as int);
        }
        r
    }

    /// A store stays well formed when one record is replaced by a well
    /// formed one with the same key.
    proof fn lemma_replaced_keeps_wf(&self, before: Registry, slot: int)
        requires
            before.wf(),
            0 <= slot < before.documents().len(),
            self.catalogs() == before.catalogs(),
            self.documents() == before.documents().update(slot, self.documents()[slot]),
            self.documents()[slot].owner == before.documents()[slot].owner,
            self.documents()[slot].file_name@ == before.documents()[slot].file_name@,
            self.documents()[slot].wf(),
        ensures
            self.wf(),
    {
        let old_docs = before.documents();
        let docs = self.documents();
        let cats = self.catalogs();
        assert forall|i: int, j: int| 0 <= i < j < docs.len() implies !(#[trigger] docs[i]).has_key(
            (#[trigger] docs[j]).owner,
            docs[j].file_name@,
        ) by {
            assert(!old_docs[i].has_key(old_docs[j].owner, old_docs[j].file_name@));
        }
        assert forall|i: int| 0 <= i < docs.len() implies (#[trigger] docs[i]).wf() by {
            if i != slot {
                assert(docs[i] == old_docs[i]);
            }
        }
        assert forall|i: int| 0 <= i < docs.len() implies has_catalog(
            cats,
            (#[trigger] docs[i]).owner,
        ) by {
            assert(docs[i].owner == old_docs[i].owner);
        }
        assert forall|i: int| 0 <= i < cats.len() implies (#[trigger] cats[i]).document_count
            == count_owned(docs, cats[i].owner) by {
            lemma_count_update(old_docs, slot, docs[slot], cats[i].owner);
        }
    }

    /// The catalog of a user counts exactly the live records that the user
    /// owns, and a user without a catalog owns none.
    pub proof fn lemma_counts_are_exact(&self, owner: Identity)
        requires
            self.wf(),
        ensures
            self.count_of(owner) matches Some(n) ==> n == count_owned(self.documents(), owner),
            self.count_of(owner) is None ==> count_owned(self.documents(), owner) == 0,
    {
        if !has_catalog(self.catalogs(), owner) {
            assert forall|i: int| 0 <= i < self.documents().len() implies (
            #[trigger] self.documents()[i]).owner != owner by {
                assert(has_catalog(self.catalogs(), self.documents()[i].owner));
            }
            lemma_count_none(self.documents(), owner);
        }
    }

    /// No record of the store names a recipient twice.
    pub proof fn lemma_recipients_are_unique(&self, owner: Identity, file_name: Seq<char>)
        requires
            self.wf(),
        ensures
            self.document_of(owner, file_name) matches Some(doc) ==> recipients_distinct(
                doc.shared_with@,
            ),
    {
    }

    /// Under a key that holds no record, every operation on a record is
    /// rejected with `DocumentNotFound`, and a new record is not a duplicate.
    pub proof fn lemma_absent_key_is_not_found(
        &self,
        caller: Identity,
        owner: Identity,
        file_name: Seq<char>,
        recipient: Identity,
    )
        requires
            self.wf(),
            !has_document(self.documents(), owner, file_name),
        ensures
            self.document_of(owner, file_name) is None,
            self.share_outcome(caller, owner, file_name, recipient) == Err::<(), DocumentError>(
                DocumentError::DocumentNotFound,
            ),
            self.revoke_outcome(caller, owner, file_name, recipient) == Err::<(), DocumentError>(
                DocumentError::DocumentNotFound,
            ),
            self.close_outcome(caller, owner, file_name) == Err::<(), DocumentError>(
                DocumentError::DocumentNotFound,
            ),
    {
    }

    /// A caller who is not the owner of a stored record is rejected with
    /// `NotDocumentOwner`, whatever the operation.
    pub proof fn lemma_only_the_owner_is_accepted(
        &self,
        caller: Identity,
        owner: Identity,
        file_name: Seq<char>,
        recipient: Identity,
    )
        requires
            self.wf(),
            has_document(self.documents(), owner, file_name),
            caller != owner,
        ensures
            self.share_outcome(caller, owner, file_name, recipient) == Err::<(), DocumentError>(
                DocumentError::NotDocumentOwner,
            ),
            self.revoke_outcome(caller, owner, file_name, recipient) == Err::<(), DocumentError>(
                DocumentError::NotDocumentOwner,
            ),
            self.close_outcome(caller, owner, file_name) == Err::<(), DocumentError>(
                DocumentError::NotDocumentOwner,
            ),
    {
        let slot = document_slot(self.documents(), owner, file_name);
        assert(self.documents()[slot].has_key(owner, file_name));
    }

    /// Whether `close_document` accepts, and if not, why: the record must
    /// exist, and the caller must be its owner.
    pub open spec fn close_outcome(
        &self,
        caller: Identity,
        owner: Identity,
        file_name: Seq<char>,
    ) -> Result<(), DocumentError> {
        if !has_document(self.documents(), owner, file_name) {
            Err(DocumentError::DocumentNotFound)
        } else if owner != caller {
            Err(DocumentError::NotDocumentOwner)
        } else {
            Ok(())
        }
    }

    /// Deletes the record stored under `owner` and `file_name`, with all
    /// its grants, and takes one off the count of its owner. Only its
    /// owner may do so.
    pub fn close_document(&mut self, caller: Identity, owner: Identity, file_name: &String) -> (r:
        Result<(), DocumentError>)
        requires
            old(self).wf(),
        ensures
            final(self).wf(),
            r == old(self).close_outcome(caller, owner, file_name@),
            r is Err ==> final(self).catalogs() == old(self).catalogs() && final(self).documents()
                == old(self).documents(),
            r is Ok ==> {
                let slot = document_slot(old(self).documents(), owner, file_name@);
                let catalog = catalog_slot(old(self).catalogs(), caller);
                &&& final(self).documents() == old(self).documents().remove(slot)
                &&& !has_document(final(self).documents(), owner, file_name@)
                &&& has_catalog(old(self).catalogs(), caller)
                &&& old(self).catalogs()[catalog].document_count >= 1
                &&& final(self).catalogs() == old(self).catalogs().update(
                    catalog,
                    UserDocuments {
                        owner: caller,
                        document_count: (old(self).catalogs()[catalog].document_count - 1) as u64,
                    },
                )
                &&& forall|o: Identity| #[trigger]
                    final(self).count_of(o) == if o == caller {
                        Some((old(self).catalogs()[catalog].document_count - 1) as u64)
                    } else {
                        old(self).count_of(o)
                    }
                &&& forall|o: Identity, n: Seq<char>| #[trigger]
                    final(self).document_of(o, n) == if o == owner && n == file_name@ {
                        None
                    } else {
                        old(self).document_of(o, n)
                    }
            },
    {
        let slot: usize = match self.find_document(owner, file_name) {
            Some(i) => i,
            None => {
                return Err(DocumentError::DocumentNotFound);
            },
        };
        if self.documents[slot].owner != caller {
            return Err(DocumentError::NotDocumentOwner);
        }
        let catalog: usize = match self.find_catalog(caller) {
            Some(i) => i,
            None => {
                proof {
                    assert(has_catalog(self.catalogs@, self.documents@[slot as int].owner));
                }
                return Err(DocumentError::CatalogNotFound);
            },
        };
        let doc = self.documents.remove(slot);
        let mut ctx = CloseDocument {
            user_documents: self.catalogs[catalog],
            document: doc,
            user: caller,
        };
        let r = close_document(&mut ctx);
        if r.is_err() {
            let doc = ctx.document;
            self.documents.insert(slot, doc);
            return r;
        }
        let counted = ctx.user_documents;
        self.catalogs.set(catalog, counted);
        proof {
            let old_cats = old(self).catalogs@;
            let old_docs = old(self).documents@;
            let cats = self.catalogs@;
            let docs = self.documents@;
            lemma_count_remove(old_docs, slot as int, caller);
            assert(old_cats[catalog as int].document_count == count_owned(old_docs, caller));
            assert forall|o: Identity| #[trigger]
                self.count_of(o) == if o == caller {
                    Some((old_cats[catalog as int].document_count - 1) as u64)
                } else {
                    old(self).count_of(o)
                } by {
                lemma_catalog_after_update(old_cats, catalog as int, counted, o);
            }
            assert forall|o: Identity, n: Seq<char>| #[trigger]
                self.document_of(o, n) == if o == owner && n == file_name@ {
                    None
                } else {
                    old(self).document_of(o, n)
                } by {
                lemma_document_after_remove(old_docs, slot as int, o, n);
            }
            assert forall|i: int| 0 <= i < docs.len() implies (#[trigger] docs[i]).wf()
                && has_catalog(cats, docs[i].owner) && !docs[i].has_key(owner, file_name@) by {
                let k = if i < slot { i } else { i + 1 };
                assert(docs[i] == old_docs[k]);
                assert(old_docs[k].wf());
                assert(has_catalog(old_cats, old_docs[k].owner));
                let c = catalog_slot(old_cats, old_docs[k].owner);
                assert(cats[c].owner == old_cats[c].owner);
                if k < slot {
                    assert(!old_docs[k].has_key(
                        old_docs[slot as int].owner,
                        old_docs[slot as int].file_name@,
                    ));
                } else {
                    assert(!old_docs[slot as int].has_key(old_docs[k].owner, old_docs[k].file_name@));
                }
            }
            lemma_document_after_remove(old_docs, slot as int, owner, file_name@);
            lemma_catalog_after_update(old_cats, catalog as int, counted, caller);
            assert forall|i: int| 0 <= i < cats.len() implies (#[trigger] cats[i]).document_count
                == count_owned(docs, cats[i].owner) by {
                lemma_count_remove(old_docs, slot as int, cats[i].owner);
                assert(old_cats[i].document_count == count_owned(old_docs, old_cats[i].owner));
                if i != catalog {
                    assert(old_cats[i].owner != old_cats[catalog as int].owner);
                }
            }
        }
        Ok(())
    }
}

} // verus!
