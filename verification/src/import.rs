use vstd::prelude::*;

verus! {

/// What to do with a UTXO from imported recovery data once the node has
/// answered the request for its membership proof.
#[derive(Debug, PartialEq, Eq)]
pub enum ImportVerdict {
    /// Import the UTXO.
    Keep,
    /// Leave the UTXO out and go on with the next one.
    Skip,
    /// Abort the import: the node answered with something unusable.
    Fail(ImportError),
}

/// Why an import of recovery data was aborted.
#[derive(Debug, PartialEq, Eq)]
pub enum ImportError {
    /// The node returned a number of membership proofs other than one.
    UnexpectedProofCount,
    /// The node's membership-proof data could not be turned into a proof;
    /// the detail is the error that the extraction gave.
    BadProofData(String),
}

impl ImportError {
    /// The text of the error.
    pub fn message(&self) -> (res: String)
        ensures
            res@ == import_error_text(*self),
    {
        match self {
            ImportError::UnexpectedProofCount => String::from_str("Expected only 1 MSMP to be returned by the server."),
            ImportError::BadProofData(detail) => {
                let mut s = String::from_str("Server returned bad mutator set membership proof recovery data: ");
                s.append(detail.as_str());
                s
            },
        }
    }
}

pub open spec fn import_error_text(e: ImportError) -> Seq<char> {
    match e {
        ImportError::UnexpectedProofCount => "Expected only 1 MSMP to be returned by the server."@,
        ImportError::BadProofData(detail) => "Server returned bad mutator set membership proof recovery data: "@ + detail@,
    }
}

/// Judge the node's answer for one imported UTXO.
///
/// A failed request skips the UTXO; an answer without exactly one proof, or
/// with proof data that cannot be used, aborts the import; otherwise the UTXO
/// is imported if its proof verifies against the tip's mutator set.
/// `proof_error` is the error that extracting the proof gave, if any, and
/// `proof_valid` whether the extracted proof verifies; they are only looked
/// at when the earlier checks passed.
pub fn judge_membership_proof(
    request_ok: bool,
    num_proofs: usize,
    proof_error: Option<String>,
    proof_valid: bool,
) -> (res: ImportVerdict)
    ensures
        !request_ok ==> res == ImportVerdict::Skip,
        request_ok && num_proofs != 1 ==> res == ImportVerdict::Fail(ImportError::UnexpectedProofCount),
        request_ok && num_proofs == 1 && proof_error is Some ==> res == ImportVerdict::Fail(ImportError::BadProofData(proof_error->0)),
        request_ok && num_proofs == 1 && proof_error is None && proof_valid ==> res == ImportVerdict::Keep,
        request_ok && num_proofs == 1 && proof_error is None && !proof_valid ==> res == ImportVerdict::Skip,
{
    if !request_ok {
        ImportVerdict::Skip
    } else if num_proofs != 1 {
        ImportVerdict::Fail(ImportError::UnexpectedProofCount)
    } else {
        match proof_error {
            Some(detail) => ImportVerdict::Fail(ImportError::BadProofData(detail)),
            None => {
                if proof_valid {
                    ImportVerdict::Keep
                } else {
                    ImportVerdict::Skip
                }
            },
        }
    }
}

} // verus!
