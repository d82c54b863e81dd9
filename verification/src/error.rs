use vstd::prelude::*;

verus! {

/// Why an operation was rejected. A rejected operation changes nothing.
#[derive(Clone, Copy, Debug, PartialEq, Eq, Structural)]
pub enum DocumentError {
    /// The caller is not the stored owner of the catalog or document.
    NotDocumentOwner,
    /// The document already holds a grant for this recipient.
    AlreadySharedWithRecipient,
    /// The file name is longer than the limit.
    InvalidFileName,
    /// The file type is longer than the limit.
    InvalidFileType,
    /// The encrypted locator is longer than the limit.
    InvalidCID,
    /// The initialization vector is longer than the limit.
    InvalidIV,
    /// The document holds no grant for this recipient.
    RecipientNotFound,
    /// The user already has a catalog.
    CatalogAlreadyExists,
    /// The user has no catalog.
    CatalogNotFound,
    /// The owner already has a document of this name.
    DuplicateDocument,
    /// The document count cannot be incremented.
    ArithmeticOverflow,
    /// No document is stored under this key.
    DocumentNotFound,
}

/// Why an instruction that reads the ledger's clock failed.
#[derive(Debug, PartialEq, Eq)]
pub enum InstructionError {
    /// The operation was rejected.
    Rejected(DocumentError),
    /// The clock could not be read; the ledger's own error says why.
    Clock(anchor_lang::prelude::ProgramError),
}

impl DocumentError {
    /// The message that describes a variant.
    pub open spec fn message_text(self) -> Seq<char> {
        match self {
            DocumentError::NotDocumentOwner => "Not the document owner"@,
            DocumentError::AlreadySharedWithRecipient => "Document already shared with this recipient"@,
            DocumentError::InvalidFileName => "Invalid file name length"@,
            DocumentError::InvalidFileType => "Invalid file type length"@,
            DocumentError::InvalidCID => "Invalid CID length"@,
            DocumentError::InvalidIV => "Invalid IV length"@,
            DocumentError::RecipientNotFound => "Recipient not found in shared list"@,
            DocumentError::CatalogAlreadyExists => "Catalog already exists for this user"@,
            DocumentError::CatalogNotFound => "Catalog not found for this user"@,
            DocumentError::DuplicateDocument => "Document with this name already exists"@,
            DocumentError::ArithmeticOverflow => "Document count overflow"@,
            DocumentError::DocumentNotFound => "Document not found"@,
        }
    }

    /// A human-readable description of the error.
    pub fn message(&self) -> (text: &'static str)
        ensures
            text@ == self.message_text(),
    {
        match self {
            DocumentError::NotDocumentOwner => "Not the document owner",
            DocumentError::AlreadySharedWithRecipient => "Document already shared with this recipient",
            DocumentError::InvalidFileName => "Invalid file name length",
            DocumentError::InvalidFileType => "Invalid file type length",
            DocumentError::InvalidCID => "Invalid CID length",
            DocumentError::InvalidIV => "Invalid IV length",
            DocumentError::RecipientNotFound => "Recipient not found in shared list",
            DocumentError::CatalogAlreadyExists => "Catalog already exists for this user",
            DocumentError::CatalogNotFound => "Catalog not found for this user",
            DocumentError::DuplicateDocument => "Document with this name already exists",
            DocumentError::ArithmeticOverflow => "Document count overflow",
            DocumentError::DocumentNotFound => "Document not found",
        }
    }
}

} // verus!
