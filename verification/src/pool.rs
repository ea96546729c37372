//! The pool of tokens: a bounded channel that holds the tokens not in use.
//!
//! The channel is made with room for every token and filled with empty ones.
//! The driver takes a token out before it reads a block; the upload of the
//! block puts the token back, with its outcome, when it ends. So the driver
//! waits, and reads nothing, while every token is with an upload, and it
//! learns of every outcome.

use crate::ledger::Token;
use crate::part::PartOutcome;
use crossbeam::channel::{Receiver, RecvError, SendError, Sender};
use vstd::pervasive::unreached;
use vstd::prelude::*;
use vstd::string::StringExecFns;

verus! {

/// `crossbeam::channel::Sender`, the sending end of a channel, carried through
/// as it is: nothing is known of what is inside.
#[verifier::external_type_specification]
#[verifier::external_body]
#[verifier::reject_recursive_types(T)]
pub struct ExSender<T>(Sender<T>);

/// `crossbeam::channel::Receiver`, the receiving end of a channel, carried
/// through as it is: nothing is known of what is inside.
#[verifier::external_type_specification]
#[verifier::external_body]
#[verifier::reject_recursive_types(T)]
pub struct ExReceiver<T>(Receiver<T>);

/// `crossbeam::channel::RecvError`, the error of a receive on a channel that
/// is empty and that no sender is left of.
#[verifier::external_type_specification]
#[verifier::external_body]
pub struct ExRecvError(RecvError);

/// What the channel says of a receive that failed.
pub open spec fn closed_text() -> Seq<char> {
    "receiving on an empty and disconnected channel"@
}

/// The most tokens that a pool is made with: the most that the channel can
/// be made for. The channel numbers its slots with the capacity plus one,
/// rounded up to a power of two and doubled, and that has to fit.
pub const MAX_TOKENS: usize = usize::MAX / 4;

/// Makes the two ends of a channel with room for `capacity` tokens, by
/// `crossbeam::channel::bounded`. That function panics where the capacity
/// plus one, rounded up to a power of two and doubled, overflows; up to
/// `MAX_TOKENS` it does not. Like every allocation it needs the memory to be
/// there. Nothing is claimed of the channel.
#[verifier::external_body]
fn token_channel(capacity: usize) -> (ends: (Sender<Token>, Receiver<Token>))
    requires
        capacity <= MAX_TOKENS,
{
    crossbeam::channel::bounded(capacity)
}

/// Puts a token into the channel, by `Sender::send`, which waits while the
/// channel is full and fails once no receiver is left. The error of that
/// function holds the message that was to be sent; here it comes back in
/// place of the error. Whether the send succeeds is not claimed.
#[verifier::external_body]
fn send_token(sender: &Sender<Token>, token: Token) -> (r: Result<(), Token>)
    ensures
        r matches Err(back) ==> back == token,
{
    match sender.send(token) {
        Ok(()) => Ok(()),
        Err(SendError(back)) => Err(back),
    }
}

/// Takes a token out of the channel, by `Receiver::recv`, which waits while
/// the channel is empty and fails once it is empty and no sender is left.
/// Which token comes depends on the uploads that run beside the caller, so
/// nothing is claimed of the result.
#[verifier::external_body]
fn recv_token(receiver: &Receiver<Token>) -> (r: Result<Token, RecvError>) {
    receiver.recv()
}

/// The error of a receive in words, by the `to_string` that the crate gives
/// its `RecvError`: the text that its `Display` writes, which is one text for
/// every such error.
#[verifier::external_body]
fn recv_error_text(error: &RecvError) -> (text: String)
    ensures
        text@ == closed_text(),
{
    error.to_string()
}

/// Another handle to the sending end of the channel, by `Sender::clone`.
#[verifier::external_body]
fn another_sender(sender: &Sender<Token>) -> (s: Sender<Token>) {
    sender.clone()
}

/// Why a pool could not be made or used.
#[derive(Clone, Copy, Debug, PartialEq, Eq, Structural)]
pub enum PoolError {
    /// More than `MAX_TOKENS` tokens were asked for.
    TooLarge,
    /// The channel is closed.
    Closed,
}

impl PoolError {
    /// The error in words.
    pub open spec fn message_text(self) -> Seq<char> {
        match self {
            PoolError::TooLarge => "Too many threads"@,
            PoolError::Closed => "Failed to initialize threads"@,
        }
    }

    /// The error in words.
    pub fn message(&self) -> (text: String)
        ensures
            text@ == self.message_text(),
    {
        match self {
            PoolError::TooLarge => String::from_str("Too many threads"),
            PoolError::Closed => String::from_str("Failed to initialize threads"),
        }
    }
}

/// What `acquire` answers for what the channel gave: the token as it came, or
/// the channel's error in words.
pub fn token_or_closed(received: Result<Token, RecvError>) -> (r: Result<Token, String>)
    ensures
        match received {
            Ok(token) => r == Ok::<Token, String>(token),
            Err(_) => r matches Err(text) && text@ == closed_text(),
        },
{
    match received {
        Ok(token) => Ok(token),
        Err(error) => Err(recv_error_text(&error)),
    }
}

/// The pool of the tokens of one upload.
pub struct TokenPool {
    sender: Sender<Token>,
    receiver: Receiver<Token>,
    capacity: usize,
}

/// The right of one upload to put its token back.
pub struct Ticket {
    sender: Sender<Token>,
}

impl TokenPool {
    /// How many tokens the pool was made with.
    pub closed spec fn capacity(&self) -> nat {
        self.capacity as nat
    }

    /// A pool of `num_tokens` tokens, every one of them empty and in the pool.
    /// A pool of no tokens is always made, since nothing is put into it.
    pub fn new(num_tokens: usize) -> (r: Result<TokenPool, PoolError>)
        ensures
            num_tokens > MAX_TOKENS <==> r == Err::<TokenPool, PoolError>(PoolError::TooLarge),
            num_tokens == 0 ==> r is Ok,
            r matches Ok(pool) ==> pool.capacity() == num_tokens,
    {
        if num_tokens > MAX_TOKENS {
            return Err(PoolError::TooLarge);
        }
        let (sender, receiver) = token_channel(num_tokens);
        let mut filled: usize = 0;
        while filled < num_tokens
            invariant
                filled <= num_tokens <= MAX_TOKENS,
            decreases num_tokens - filled,
        {
            if send_token(&sender, Token::Empty).is_err() {
                return Err(PoolError::Closed);
            }
            filled += 1;
        }
        Ok(TokenPool { sender, receiver, capacity: num_tokens })
    }

    /// How many tokens the pool was made with.
    pub fn size(&self) -> (n: usize)
        ensures
            n == self.capacity(),
    {
        self.capacity
    }

    /// Waits until a token lies in the pool and takes it out. Which token
    /// that is lies with the uploads that put theirs back; `token_or_closed`
    /// says what is answered for each thing that the channel can give.
    ///
    /// The wait ends only when a token comes. The pool keeps a sending end of
    /// its own, so the channel never closes under it: where no token is idle
    /// and no ticket will be released, as with a pool of no tokens, this call
    /// does not return. An upload asks for a token only while one is idle or
    /// in flight.
    pub fn acquire(&self) -> (r: Result<Token, String>)
        ensures
            r matches Err(text) ==> text@ == closed_text(),
    {
        token_or_closed(recv_token(&self.receiver))
    }

    /// The right to put one token back, for the upload that takes one along.
    pub fn ticket(&self) -> Ticket {
        Ticket { sender: another_sender(&self.sender) }
    }
}

impl Ticket {
    /// Puts the token back into the pool, with how the upload ended. Once the
    /// pool is gone there is nowhere to put it: then the outcome comes back
    /// as it was given.
    ///
    /// The call waits while the pool is full. A pool is never full while one
    /// of its tokens is out, so a ticket that stands for a token taken from
    /// the pool is released without a wait; one that stands for none can wait
    /// for as long as the pool lives.
    pub fn release(self, outcome: PartOutcome) -> (r: Result<(), PartOutcome>)
        ensures
            r matches Err(back) ==> back == outcome,
    {
        match send_token(&self.sender, Token::Carrying(outcome)) {
            Ok(_) => Ok(()),
            Err(Token::Carrying(back)) => Err(back),
            Err(Token::Empty) => unreached(),
        }
    }
}

} // verus!
