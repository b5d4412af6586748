//! Error kinds of the authorship-tracking library.

use vstd::prelude::*;
use vstd::string::StringExecFns;

verus! {

/// What went wrong. User-facing commands print one line and exit
/// non-zero; hooks record a degraded event instead of failing the
/// wrapped command.
pub enum GitAiError {
    /// The repository has no working tree.
    BareRepository,
    /// No repository was found.
    NotARepository,
    /// A read or write failed.
    Io,
    /// Another checkpoint holds the repository lock.
    Locked,
    /// The checkpoint chain invariant is broken.
    InvalidCheckpoint,
    /// A stored attestation is malformed.
    InvalidAuthorshipLog,
    /// Malformed input, persisted record or command line.
    ParseError,
    /// The wrapped subprocess failed.
    SubprocessFailed,
    /// A rewrite transform fell back to partial attribution.
    Degraded,
    /// Anything else, with a message.
    Generic(Vec<char>),
}

/// The diagnostic line of each error kind.
pub open spec fn message_spec(e: GitAiError) -> Seq<char> {
    match e {
        GitAiError::BareRepository => "Cannot run checkpoint on bare repositories"@,
        GitAiError::NotARepository => "Not a repository"@,
        GitAiError::Io => "Input or output failed"@,
        GitAiError::Locked => "Another checkpoint is in progress"@,
        GitAiError::InvalidCheckpoint => "Invalid checkpoint chain"@,
        GitAiError::InvalidAuthorshipLog => "Invalid authorship log"@,
        GitAiError::ParseError => "Malformed input"@,
        GitAiError::SubprocessFailed => "Subprocess failed"@,
        GitAiError::Degraded => "Attribution degraded"@,
        GitAiError::Generic(m) => m@,
    }
}

impl GitAiError {
    /// The single-line diagnostic of this error.
    pub fn message(&self) -> (r: String)
        ensures
            r@ == message_spec(*self),
    {
        match self {
            GitAiError::BareRepository => String::from_str(
                "Cannot run checkpoint on bare repositories",
            ),
            GitAiError::NotARepository => String::from_str("Not a repository"),
            GitAiError::Io => String::from_str("Input or output failed"),
            GitAiError::Locked => String::from_str("Another checkpoint is in progress"),
            GitAiError::InvalidCheckpoint => String::from_str("Invalid checkpoint chain"),
            GitAiError::InvalidAuthorshipLog => String::from_str("Invalid authorship log"),
            GitAiError::ParseError => String::from_str("Malformed input"),
            GitAiError::SubprocessFailed => String::from_str("Subprocess failed"),
            GitAiError::Degraded => String::from_str("Attribution degraded"),
            GitAiError::Generic(m) => chars_to_string(m),
        }
    }
}

/// Builds a `String` whose view equals the characters of `v`.
pub fn chars_to_string(v: &Vec<char>) -> (r: String)
    ensures
        r@ == v@,
{
    let mut r = String::new();
    let mut i: usize = 0;
    while i < v.len()
        invariant
            0 <= i <= v.len(),
            r@ == v@.subrange(0, i as int),
        decreases v.len() - i,
    {
        push_char(&mut r, v[i]);
        i += 1;
        proof {
            assert(r@ =~= v@.subrange(0, i as int));
        }
    }
    proof {
        assert(v@.subrange(0, v@.len() as int) =~= v@);
    }
    r
}

/// Relies on String::push: appends exactly the given character.
#[verifier::external_body]
fn push_char(s: &mut String, c: char)
    ensures
        final(s)@ == old(s)@ + seq![c],
{
    s.push(c);
}

} // verus!
