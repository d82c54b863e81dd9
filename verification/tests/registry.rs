use document_storage::{DocumentError, Identity, Registry};

fn id(n: u128) -> Identity {
    Identity::new(7, n)
}

fn s(v: &str) -> String {
    String::from(v)
}

fn add(reg: &mut Registry, who: Identity, name: &str, now: i64) -> Result<(), DocumentError> {
    reg.add_document_at(who, s(name), s("pdf"), s("cid"), s("iv"), now)
}

fn recipients(reg: &Registry, owner: Identity, name: &str) -> Vec<Identity> {
    let doc = reg.document(owner, &s(name)).unwrap();
    let mut out = Vec::new();
    for g in &doc.shared_with {
        out.push(g.recipient);
    }
    out
}

#[test]
fn owner_shares_revokes_and_closes() {
    let (a, b) = (id(1), id(2));
    let name = s("report.pdf");
    let mut reg = Registry::new();
    assert_eq!(reg.initialize(a), Ok(()));
    assert_eq!(reg.document_count(a), Some(0));
    assert_eq!(add(&mut reg, a, "report.pdf", 100), Ok(()));
    assert_eq!(reg.document_count(a), Some(1));
    assert_eq!(reg.share_document_at(a, a, &name, b, s("cid-b"), s("iv-b"), 101), Ok(()));
    assert_eq!(recipients(&reg, a, "report.pdf"), vec![b]);
    assert_eq!(reg.revoke_access(b, a, &name, b), Err(DocumentError::NotDocumentOwner));
    assert_eq!(recipients(&reg, a, "report.pdf"), vec![b]);
    assert_eq!(reg.revoke_access(a, a, &name, b), Ok(()));
    assert!(reg.document(a, &name).unwrap().shared_with.is_empty());
    assert_eq!(reg.close_document(a, a, &name), Ok(()));
    assert_eq!(reg.document_count(a), Some(0));
    assert!(reg.document(a, &name).is_none());
}

#[test]
fn second_document_of_the_same_name_is_a_duplicate() {
    let a = id(1);
    let mut reg = Registry::new();
    assert_eq!(reg.initialize(a), Ok(()));
    assert_eq!(add(&mut reg, a, "x.txt", 1), Ok(()));
    assert_eq!(add(&mut reg, a, "x.txt", 2), Err(DocumentError::DuplicateDocument));
    assert_eq!(reg.document_count(a), Some(1));
    assert_eq!(reg.document(a, &s("x.txt")).unwrap().created_at, 1);
}

#[test]
fn two_shares_succeed_in_either_order() {
    let (a, b, c) = (id(1), id(2), id(3));
    let name = s("doc");

    let mut first = Registry::new();
    assert_eq!(first.initialize(a), Ok(()));
    assert_eq!(add(&mut first, a, "doc", 1), Ok(()));
    assert_eq!(first.share_document_at(a, a, &name, b, s("cb"), s("ib"), 2), Ok(()));
    assert_eq!(first.share_document_at(a, a, &name, c, s("cc"), s("ic"), 3), Ok(()));
    assert_eq!(recipients(&first, a, "doc"), vec![b, c]);

    let mut second = Registry::new();
    assert_eq!(second.initialize(a), Ok(()));
    assert_eq!(add(&mut second, a, "doc", 1), Ok(()));
    assert_eq!(second.share_document_at(a, a, &name, c, s("cc"), s("ic"), 2), Ok(()));
    assert_eq!(second.share_document_at(a, a, &name, b, s("cb"), s("ib"), 3), Ok(()));
    assert_eq!(recipients(&second, a, "doc"), vec![c, b]);
}

#[test]
fn catalog_is_created_once() {
    let a = id(1);
    let mut reg = Registry::new();
    assert_eq!(reg.document_count(a), None);
    assert_eq!(reg.initialize(a), Ok(()));
    assert_eq!(add(&mut reg, a, "kept", 1), Ok(()));
    assert_eq!(reg.initialize(a), Err(DocumentError::CatalogAlreadyExists));
    assert_eq!(reg.document_count(a), Some(1));
}

#[test]
fn adding_needs_a_catalog() {
    let (a, b) = (id(1), id(2));
    let mut reg = Registry::new();
    assert_eq!(reg.initialize(b), Ok(()));
    assert_eq!(add(&mut reg, a, "doc", 1), Err(DocumentError::CatalogNotFound));
    assert!(reg.document(a, &s("doc")).is_none());
    assert_eq!(reg.document_count(b), Some(0));
}

#[test]
fn file_name_of_101_bytes_is_rejected_and_100_accepted() {
    let a = id(1);
    let mut reg = Registry::new();
    assert_eq!(reg.initialize(a), Ok(()));
    let long = "n".repeat(101);
    let r = reg.add_document_at(a, long.clone(), s("t"), s("c"), s("i"), 1);
    assert_eq!(r, Err(DocumentError::InvalidFileName));
    assert_eq!(reg.document_count(a), Some(0));
    assert!(reg.document(a, &long).is_none());
    let fits = "n".repeat(100);
    assert_eq!(reg.add_document_at(a, fits.clone(), s("t"), s("c"), s("i"), 1), Ok(()));
    assert_eq!(reg.document_count(a), Some(1));
    assert_eq!(reg.document(a, &fits).unwrap().file_name, fits);
}

#[test]
fn other_length_limits_leave_the_store_unchanged() {
    let a = id(1);
    let mut reg = Registry::new();
    assert_eq!(reg.initialize(a), Ok(()));
    let r = reg.add_document_at(a, s("a"), "t".repeat(51), s("c"), s("i"), 1);
    assert_eq!(r, Err(DocumentError::InvalidFileType));
    let r = reg.add_document_at(a, s("a"), s("t"), "c".repeat(101), s("i"), 1);
    assert_eq!(r, Err(DocumentError::InvalidCID));
    let r = reg.add_document_at(a, s("a"), s("t"), s("c"), "i".repeat(51), 1);
    assert_eq!(r, Err(DocumentError::InvalidIV));
    assert_eq!(reg.document_count(a), Some(0));
    assert!(reg.document(a, &s("a")).is_none());
}

#[test]
fn counts_follow_the_live_documents_of_each_owner() {
    let (a, b) = (id(1), id(2));
    let mut reg = Registry::new();
    assert_eq!(reg.initialize(a), Ok(()));
    assert_eq!(reg.initialize(b), Ok(()));
    assert_eq!(add(&mut reg, a, "one", 1), Ok(()));
    assert_eq!(add(&mut reg, b, "one", 2), Ok(()));
    assert_eq!(add(&mut reg, a, "two", 3), Ok(()));
    assert_eq!(add(&mut reg, a, "three", 4), Ok(()));
    assert_eq!(reg.document_count(a), Some(3));
    assert_eq!(reg.document_count(b), Some(1));
    assert_eq!(reg.close_document(a, a, &s("two")), Ok(()));
    assert_eq!(reg.document_count(a), Some(2));
    assert_eq!(reg.document_count(b), Some(1));
    assert!(reg.document(a, &s("one")).is_some());
    assert!(reg.document(a, &s("two")).is_none());
    assert!(reg.document(a, &s("three")).is_some());
    assert_eq!(reg.document(b, &s("one")).unwrap().created_at, 2);
    assert_eq!(reg.close_document(b, b, &s("one")), Ok(()));
    assert_eq!(reg.document_count(b), Some(0));
    assert_eq!(reg.document(a, &s("one")).unwrap().created_at, 1);
}

#[test]
fn sharing_twice_is_rejected_and_changes_nothing() {
    let (a, b) = (id(1), id(2));
    let name = s("doc");
    let mut reg = Registry::new();
    assert_eq!(reg.initialize(a), Ok(()));
    assert_eq!(add(&mut reg, a, "doc", 1), Ok(()));
    assert_eq!(reg.share_document_at(a, a, &name, b, s("cb"), s("ib"), 2), Ok(()));
    let before = reg.document(a, &name).unwrap().clone();
    let r = reg.share_document_at(a, a, &name, b, s("new"), s("new"), 3);
    assert_eq!(r, Err(DocumentError::AlreadySharedWithRecipient));
    assert_eq!(reg.document(a, &name).unwrap(), &before);
    assert_eq!(before.shared_with.len(), 1);
    assert_eq!(before.shared_with[0].encrypted_cid, "cb");
    assert_eq!(before.shared_with[0].iv, "ib");
    assert_eq!(before.shared_with[0].shared_at, 2);
}

#[test]
fn revoking_an_absent_recipient_is_rejected_and_changes_nothing() {
    let (a, b, c) = (id(1), id(2), id(3));
    let name = s("doc");
    let mut reg = Registry::new();
    assert_eq!(reg.initialize(a), Ok(()));
    assert_eq!(add(&mut reg, a, "doc", 1), Ok(()));
    assert_eq!(reg.share_document_at(a, a, &name, b, s("cb"), s("ib"), 2), Ok(()));
    let before = reg.document(a, &name).unwrap().clone();
    assert_eq!(reg.revoke_access(a, a, &name, c), Err(DocumentError::RecipientNotFound));
    assert_eq!(reg.document(a, &name).unwrap(), &before);
}

#[test]
fn a_closed_document_is_gone_with_its_grants() {
    let (a, b) = (id(1), id(2));
    let name = s("doc");
    let mut reg = Registry::new();
    assert_eq!(reg.initialize(a), Ok(()));
    assert_eq!(add(&mut reg, a, "doc", 1), Ok(()));
    assert_eq!(reg.share_document_at(a, a, &name, b, s("cb"), s("ib"), 2), Ok(()));
    assert_eq!(reg.close_document(a, a, &name), Ok(()));
    assert!(reg.document(a, &name).is_none());
    assert_eq!(reg.revoke_access(a, a, &name, b), Err(DocumentError::DocumentNotFound));
    assert_eq!(
        reg.share_document_at(a, a, &name, b, s("cb"), s("ib"), 3),
        Err(DocumentError::DocumentNotFound)
    );
    assert_eq!(reg.close_document(a, a, &name), Err(DocumentError::DocumentNotFound));
    assert_eq!(reg.document_count(a), Some(0));
    // The key is free again, and the new record starts without grants.
    assert_eq!(add(&mut reg, a, "doc", 9), Ok(()));
    assert!(reg.document(a, &name).unwrap().shared_with.is_empty());
    assert_eq!(reg.document_count(a), Some(1));
}

#[test]
fn a_stranger_cannot_share_revoke_or_close() {
    let (a, b, c) = (id(1), id(2), id(3));
    let name = s("doc");
    let mut reg = Registry::new();
    assert_eq!(reg.initialize(a), Ok(()));
    assert_eq!(reg.initialize(b), Ok(()));
    assert_eq!(add(&mut reg, a, "doc", 1), Ok(()));
    assert_eq!(reg.share_document_at(a, a, &name, c, s("cc"), s("ic"), 2), Ok(()));
    let before = reg.document(a, &name).unwrap().clone();
    assert_eq!(
        reg.share_document_at(b, a, &name, b, s("cb"), s("ib"), 3),
        Err(DocumentError::NotDocumentOwner)
    );
    assert_eq!(reg.revoke_access(b, a, &name, c), Err(DocumentError::NotDocumentOwner));
    assert_eq!(reg.close_document(b, a, &name), Err(DocumentError::NotDocumentOwner));
    assert_eq!(reg.document(a, &name).unwrap(), &before);
    assert_eq!(reg.document_count(a), Some(1));
    assert_eq!(reg.document_count(b), Some(0));
}

#[test]
fn same_name_under_two_owners_is_two_documents() {
    let (a, b) = (id(1), id(2));
    let name = s("doc");
    let mut reg = Registry::new();
    assert_eq!(reg.initialize(a), Ok(()));
    assert_eq!(reg.initialize(b), Ok(()));
    assert_eq!(add(&mut reg, a, "doc", 1), Ok(()));
    assert_eq!(add(&mut reg, b, "doc", 2), Ok(()));
    assert_eq!(reg.share_document_at(b, b, &name, a, s("ca"), s("ia"), 3), Ok(()));
    assert!(reg.document(a, &name).unwrap().shared_with.is_empty());
    assert_eq!(recipients(&reg, b, "doc"), vec![a]);
}

#[test]
fn revoking_in_the_store_keeps_the_order_of_the_rest() {
    let a = id(1);
    let name = s("doc");
    let mut reg = Registry::new();
    assert_eq!(reg.initialize(a), Ok(()));
    assert_eq!(add(&mut reg, a, "other", 0), Ok(()));
    assert_eq!(add(&mut reg, a, "doc", 1), Ok(()));
    for n in 10..14 {
        assert_eq!(reg.share_document_at(a, a, &name, id(n), s("c"), s("i"), 5), Ok(()));
    }
    assert_eq!(reg.revoke_access(a, a, &name, id(11)), Ok(()));
    assert_eq!(recipients(&reg, a, "doc"), vec![id(10), id(12), id(13)]);
    assert!(reg.document(a, &s("other")).unwrap().shared_with.is_empty());
}
