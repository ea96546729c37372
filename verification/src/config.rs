//! What is checked before a session is opened: the block size, the
//! destination and the number of tokens.

use crate::pool::MAX_TOKENS;
use crate::size::chars_of;
use vstd::prelude::*;
use vstd::string::{StrSliceExecFns, StringExecFns};

verus! {

/// The smallest block size that is accepted: the smallest part that the
/// backend takes, but for the last.
pub const MIN_BLOCK_SIZE: usize = 5 * 1024 * 1024;

/// Why the configuration was rejected.
#[derive(Clone, Copy, Debug, PartialEq, Eq, Structural)]
pub enum ConfigError {
    /// The block size is below `MIN_BLOCK_SIZE`.
    BlockTooSmall,
    /// The destination does not start with `s3://`.
    MissingScheme,
    /// No `/` parts a key from the bucket.
    MissingKey,
    /// Twice the number of workers is more than `MAX_TOKENS`.
    TooManyWorkers,
}

impl ConfigError {
    /// The error in words.
    pub open spec fn message_text(self) -> Seq<char> {
        match self {
            ConfigError::BlockTooSmall => "Part size too small, 5MB is the minimum"@,
            ConfigError::MissingScheme => "S3 path has to start with 's3://'"@,
            ConfigError::MissingKey => "S3 path should be 's3://bucket/key'"@,
            ConfigError::TooManyWorkers => "Too many threads"@,
        }
    }

    /// The error in words.
    pub fn message(&self) -> (text: String)
        ensures
            text@ == self.message_text(),
    {
        match self {
            ConfigError::BlockTooSmall => String::from_str(
                "Part size too small, 5MB is the minimum",
            ),
            ConfigError::MissingScheme => String::from_str("S3 path has to start with 's3://'"),
            ConfigError::MissingKey => String::from_str("S3 path should be 's3://bucket/key'"),
            ConfigError::TooManyWorkers => String::from_str("Too many threads"),
        }
    }
}

/// What an upload is run with.
#[derive(Debug, PartialEq, Eq)]
pub struct Plan {
    pub bucket: String,
    pub key: String,
    pub block_size: usize,
    pub num_tokens: usize,
    pub max_retries: u32,
}

/// The text `s3://`.
pub open spec fn scheme() -> Seq<char> {
    seq!['s', '3', ':', '/', '/']
}

/// How many characters stand before the first `/` of `s`; the length of `s`
/// where it holds none.
pub open spec fn bucket_len(s: Seq<char>) -> nat
    decreases s.len(),
{
    if s.len() == 0 || s[0] == '/' {
        0
    } else {
        1 + bucket_len(s.drop_first())
    }
}

/// The bucket and the key that a destination names. The bucket is what
/// stands between `s3://` and the next `/`, the key all that follows that `/`.
pub open spec fn destination_of(path: Seq<char>) -> Result<(Seq<char>, Seq<char>), ConfigError> {
    if !(path.len() >= 5 && path.take(5) == scheme()) {
        Err(ConfigError::MissingScheme)
    } else {
        let rest = path.skip(5);
        let n = bucket_len(rest) as int;
        if n >= rest.len() {
            Err(ConfigError::MissingKey)
        } else {
            Ok((rest.take(n), rest.skip(n + 1)))
        }
    }
}

/// The number of tokens for a number of workers: two for each.
pub open spec fn tokens_for(threads: nat) -> Result<nat, ConfigError> {
    if 2 * threads > MAX_TOKENS {
        Err(ConfigError::TooManyWorkers)
    } else {
        Ok(2 * threads)
    }
}

/// Where the first `n` characters are no `/`, the bucket has at least `n`
/// characters, and just `n` where the next character is a `/`.
proof fn lemma_bucket_len(s: Seq<char>, n: int)
    requires
        0 <= n <= s.len(),
        forall|i: int| 0 <= i < n ==> s[i] != '/',
    ensures
        n <= bucket_len(s) <= s.len(),
        n < s.len() && s[n] == '/' ==> bucket_len(s) == n,
    decreases s.len(),
{
    if s.len() > 0 && s[0] != '/' {
        let t = s.drop_first();
        if n > 0 {
            assert forall|i: int| 0 <= i < n - 1 implies t[i] != '/' by {
                assert(t[i] == s[i + 1]);
            }
            lemma_bucket_len(t, n - 1);
        } else {
            lemma_bucket_len(t, 0);
        }
    }
}

/// Whether the block size is one that the backend takes for a part.
pub fn check_block_size(block_size: usize) -> (r: Result<(), ConfigError>)
    ensures
        block_size < MIN_BLOCK_SIZE <==> r == Err::<(), ConfigError>(ConfigError::BlockTooSmall),
        block_size >= MIN_BLOCK_SIZE <==> r is Ok,
{
    if block_size < MIN_BLOCK_SIZE {
        Err(ConfigError::BlockTooSmall)
    } else {
        Ok(())
    }
}

/// Reads a destination of the form `s3://bucket/key`.
pub fn parse_destination(path: &str) -> (r: Result<(String, String), ConfigError>)
    ensures
        match r {
            Ok((bucket, key)) => destination_of(path@) == Ok::<
                (Seq<char>, Seq<char>),
                ConfigError,
            >((bucket@, key@)),
            Err(e) => destination_of(path@) == Err::<(Seq<char>, Seq<char>), ConfigError>(e),
        },
{
    let chars = chars_of(path);
    let n = chars.len();
    if n < 5 || chars[0] != 's' || chars[1] != '3' || chars[2] != ':' || chars[3] != '/'
        || chars[4] != '/' {
        assert(path@.len() >= 5 ==> path@.take(5)[0] == path@[0] && path@.take(5)[1] == path@[1]
            && path@.take(5)[2] == path@[2] && path@.take(5)[3] == path@[3] && path@.take(5)[4]
            == path@[4]);
        return Err(ConfigError::MissingScheme);
    }
    assert(path@.take(5) =~= scheme());
    let ghost rest = path@.skip(5);
    let mut i: usize = 5;
    while i < n && chars[i] != '/'
        invariant
            5 <= i <= n,
            n == chars@.len(),
            chars@ == path@,
            rest == path@.skip(5),
            forall|j: int| 0 <= j < i - 5 ==> rest[j] != '/',
        decreases n - i,
    {
        i += 1;
    }
    proof {
        lemma_bucket_len(rest, i - 5);
    }
    if i >= n {
        return Err(ConfigError::MissingKey);
    }
    let bucket = String::from_str(path.substring_char(5, i));
    let key = String::from_str(path.substring_char(i + 1, n));
    proof {
        assert(bucket@ =~= rest.take(i - 5));
        assert(key@ =~= rest.skip(i - 5 + 1));
    }
    Ok((bucket, key))
}

/// The number of tokens for a number of workers: two for each, so that a
/// worker that has ended an upload finds the next block waiting.
pub fn token_count(threads: usize) -> (r: Result<usize, ConfigError>)
    ensures
        match r {
            Ok(n) => tokens_for(threads as nat) == Ok::<nat, ConfigError>(n as nat),
            Err(e) => tokens_for(threads as nat) == Err::<nat, ConfigError>(e),
        },
{
    if threads > MAX_TOKENS / 2 {
        Err(ConfigError::TooManyWorkers)
    } else {
        Ok(2 * threads)
    }
}

/// Checks the configuration in the order in which its faults are reported:
/// the block size first, then the destination, then the number of workers.
pub fn plan(destination: &str, block_size: usize, threads: usize, max_retries: u32) -> (r: Result<
    Plan,
    ConfigError,
>)
    ensures
        match r {
            Ok(plan) => {
                &&& block_size >= MIN_BLOCK_SIZE
                &&& destination_of(destination@) == Ok::<(Seq<char>, Seq<char>), ConfigError>(
                    (plan.bucket@, plan.key@),
                )
                &&& tokens_for(threads as nat) == Ok::<nat, ConfigError>(plan.num_tokens as nat)
                &&& plan.block_size == block_size
                &&& plan.max_retries == max_retries
            },
            Err(e) => if block_size < MIN_BLOCK_SIZE {
                e == ConfigError::BlockTooSmall
            } else if destination_of(destination@) is Err {
                destination_of(destination@) == Err::<(Seq<char>, Seq<char>), ConfigError>(e)
            } else {
                tokens_for(threads as nat) == Err::<nat, ConfigError>(e)
            },
        },
{
    match check_block_size(block_size) {
        Err(e) => { return Err(e); },
        Ok(_) => {},
    }
    let (bucket, key) = match parse_destination(destination) {
        Err(e) => { return Err(e); },
        Ok(names) => names,
    };
    let num_tokens = match token_count(threads) {
        Err(e) => { return Err(e); },
        Ok(n) => n,
    };
    Ok(Plan { bucket, key, block_size, num_tokens, max_retries })
}

} // verus!
