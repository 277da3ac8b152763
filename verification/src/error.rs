//! The ways in which a session fails. Every failure is final for the session.
use vstd::prelude::*;

verus! {

/// Why a party gave up.
#[derive(Clone, Copy, Debug, PartialEq, Eq, Structural)]
pub enum Error {
    /// The bucket mapping holds `index`, which is outside of the range `0..limit`.
    BucketOutOfRange { index: usize, limit: usize },
    /// The number of openings asked for is `got` where `expected` are due.
    WrongNumberOfOpenings { expected: usize, got: usize },
    /// The first message does not hold as many commitments as the parameters ask for.
    WrongNumberOfCommitments,
    /// A message holds a sequence of the wrong length.
    WrongMessageLength,
    /// An opening does not open the first half of its commitment.
    DecommitmentWrong,
    /// The scalar that an opening uncovers does not match the commitment's point.
    DecommitmentMismatch,
    /// A padded secret does not fit the secret's image and the commitment's point.
    PaddedSecretInvalid,
    /// The proof that ciphertexts and commitments agree was not accepted.
    ProofInvalid,
    /// No entry of the bucket decrypts to the expected secret.
    MaliciousEncryption,
    /// Fewer shares were recovered, from different oracles, than the threshold asks for.
    NotEnoughShares,
    /// The secret that the shares give does not have the expected image.
    WrongSecret,
}

/// The text of a digit.
pub open spec fn digit_text(d: nat) -> Seq<char> {
    if d == 0 {
        "0"@
    } else if d == 1 {
        "1"@
    } else if d == 2 {
        "2"@
    } else if d == 3 {
        "3"@
    } else if d == 4 {
        "4"@
    } else if d == 5 {
        "5"@
    } else if d == 6 {
        "6"@
    } else if d == 7 {
        "7"@
    } else if d == 8 {
        "8"@
    } else {
        "9"@
    }
}

/// The text of a number: its decimal digits, the most significant first.
pub open spec fn decimal_text(n: nat) -> Seq<char>
    decreases n,
{
    if n < 10 {
        digit_text(n)
    } else {
        decimal_text(n / 10) + digit_text(n % 10)
    }
}

/// The text of a digit.
fn digit(d: usize) -> (text: &'static str)
    requires
        d < 10,
    ensures
        text@ == digit_text(d as nat),
{
    if d == 0 {
        "0"
    } else if d == 1 {
        "1"
    } else if d == 2 {
        "2"
    } else if d == 3 {
        "3"
    } else if d == 4 {
        "4"
    } else if d == 5 {
        "5"
    } else if d == 6 {
        "6"
    } else if d == 7 {
        "7"
    } else if d == 8 {
        "8"
    } else {
        "9"
    }
}

/// The text of a number: its decimal digits, the most significant first.
pub fn decimal(n: usize) -> (text: String)
    ensures
        text@ == decimal_text(n as nat),
    decreases n,
{
    if n < 10 {
        String::from_str(digit(n))
    } else {
        decimal(n / 10).concat(digit(n % 10))
    }
}

impl Error {
    /// The failure in words.
    pub open spec fn text(&self) -> Seq<char> {
        match *self {
            Error::BucketOutOfRange { index, limit } => "bucket was mapped to "@ + decimal_text(
                index as nat,
            ) + " which is outside of range 0.."@ + decimal_text(limit as nat),
            Error::WrongNumberOfOpenings { expected, got } =>
                "wrong number of openings requested. Expected "@ + decimal_text(expected as nat)
                    + " got "@ + decimal_text(got as nat),
            Error::WrongNumberOfCommitments => "Alice sent wrong number of commitments"@,
            Error::WrongMessageLength => "a message had the wrong length"@,
            Error::DecommitmentWrong => "decommitment was wrong"@,
            Error::DecommitmentMismatch => "decommitment of chain scalar didn't match chain point"@,
            Error::PaddedSecretInvalid => "padded secret wasn't valid"@,
            Error::ProofInvalid => "proof of equality between ciphertext and commitment was invalid"@,
            Error::MaliciousEncryption => "the encryption was malicious"@,
            Error::NotEnoughShares => "not enough shares"@,
            Error::WrongSecret => "the shares gave a secret without the expected image"@,
        }
    }

    /// The failure in words.
    pub fn message(&self) -> (text: String)
        ensures
            text@ == self.text(),
    {
        match self {
            Error::BucketOutOfRange { index, limit } => {
                let mut text = String::from_str("bucket was mapped to ");
                text.append(decimal(*index).as_str());
                text.append(" which is outside of range 0..");
                text.append(decimal(*limit).as_str());
                text
            },
            Error::WrongNumberOfOpenings { expected, got } => {
                let mut text = String::from_str("wrong number of openings requested. Expected ");
                text.append(decimal(*expected).as_str());
                text.append(" got ");
                text.append(decimal(*got).as_str());
                text
            },
            Error::WrongNumberOfCommitments => String::from_str(
                "Alice sent wrong number of commitments",
            ),
            Error::WrongMessageLength => String::from_str("a message had the wrong length"),
            Error::DecommitmentWrong => String::from_str("decommitment was wrong"),
            Error::DecommitmentMismatch => String::from_str(
                "decommitment of chain scalar didn't match chain point",
            ),
            Error::PaddedSecretInvalid => String::from_str("padded secret wasn't valid"),
            Error::ProofInvalid => String::from_str(
                "proof of equality between ciphertext and commitment was invalid",
            ),
            Error::MaliciousEncryption => String::from_str("the encryption was malicious"),
            Error::NotEnoughShares => String::from_str("not enough shares"),
            Error::WrongSecret => String::from_str(
                "the shares gave a secret without the expected image",
            ),
        }
    }
}

} // verus!
