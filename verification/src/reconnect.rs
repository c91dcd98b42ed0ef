//! The servers against which reconnecting clients are tried: what they answer,
//! call by call.
use crate::error::{Error, ErrorKind, ErrorView};
use crate::strings::{decimal, to_decimal};
use vstd::prelude::*;
use vstd::string::*;

verus! {

/// A server of the test interface: the error that it answers with, if one is
/// set, the connection that it belongs to, and what its answers wait for, if
/// they do.
pub struct TestInterfaceImpl<B> {
    pub error: Option<Error>,
    pub generation: usize,
    pub block: Option<B>,
}

/// What a server does with a call.
pub enum Answer<'a, B> {
    /// Answers with an error.
    Fail(Error),
    /// Answers with a text.
    Reply(String),
    /// Answers with a text, once what it waits for has come out well.
    ReplyAfter(String, &'a B),
}

/// What comes of the channel that releases blocked answers.
pub enum Release {
    /// Something was sent over it.
    Sent(Result<(), Error>),
    /// It was dropped.
    Dropped,
}

/// How a truth value is written.
pub open spec fn bool_text(b: bool) -> Seq<char> {
    if b {
        "true"@
    } else {
        "false"@
    }
}

/// The text that a server answers with.
pub open spec fn reply_text(i: u32, j: bool, generation: usize) -> Seq<char> {
    decimal(i as nat) + " "@ + bool_text(j) + " "@ + decimal(generation as nat)
}

impl<B> TestInterfaceImpl<B> {
    /// A server that answers at once, for a connection.
    pub fn new(generation: usize) -> (r: Self)
        ensures
            r.error is None,
            r.generation == generation,
            r.block is None,
    {
        TestInterfaceImpl { error: None, generation, block: None }
    }

    /// From now on, answers with an error.
    pub fn set_error(&mut self, err: Error)
        ensures
            *final(self) == (TestInterfaceImpl { error: Some(err), ..*old(self) }),
    {
        self.error = Some(err);
    }

    /// From now on, waits for `block` before it answers.
    pub fn block(&mut self, block: B)
        ensures
            *final(self) == (TestInterfaceImpl { block: Some(block), ..*old(self) }),
    {
        self.block = Some(block);
    }

    /// What the server does with a call.
    pub fn foo(&self, i: u32, j: bool) -> (r: Answer<'_, B>)
        ensures
            match (self.error, self.block) {
                (Some(err), _) => r matches Answer::Fail(e) && e == err,
                (None, None) => r matches Answer::Reply(text) && text@ == reply_text(
                    i,
                    j,
                    self.generation,
                ),
                (None, Some(block)) => r matches Answer::ReplyAfter(text, waited) && text@
                    == reply_text(i, j, self.generation) && *waited == block,
            },
    {
        if let Some(err) = &self.error {
            return Answer::Fail(err.clone());
        }
        let mut text = to_decimal(i as u64);
        text.append(" ");
        text.append(
            if j {
                "true"
            } else {
                "false"
            },
        );
        text.append(" ");
        text.append(to_decimal(self.generation as u64).as_str());
        match &self.block {
            Some(block) => Answer::ReplyAfter(text, block),
            None => Answer::Reply(text),
        }
    }
}

/// How a blocked answer ends.
pub fn released(release: Release) -> (r: Result<(), Error>)
    ensures
        match release {
            Release::Sent(sent) => r == sent,
            Release::Dropped => r matches Err(e) && e@ == (ErrorView {
                kind: ErrorKind::Failed,
                extra: "dropped sender"@,
            }),
        },
{
    match release {
        Release::Sent(sent) => sent,
        Release::Dropped => Err(Error::failed("dropped sender".to_owned())),
    }
}

/// A server that hands out a client once.
pub struct Bootstrap<C> {
    pub client: Option<C>,
}

impl<C> Bootstrap<C> {
    /// A server with nothing to hand out.
    pub fn new() -> (r: Self)
        ensures
            r.client is None,
    {
        Bootstrap { client: None }
    }

    /// Lets the server hand out `client`.
    pub fn set_interface(&mut self, client: C)
        ensures
            final(self).client == Some(client),
    {
        self.client = Some(client);
    }

    /// Hands out the client, if it has one.
    pub fn test_interface(&mut self) -> (r: Result<C, Error>)
        ensures
            final(self).client is None,
            match old(self).client {
                Some(client) => r == Ok::<C, Error>(client),
                None => r matches Err(e) && e@ == (ErrorView {
                    kind: ErrorKind::Failed,
                    extra: "No interface available"@,
                }),
            },
    {
        match self.client.take() {
            Some(client) => Ok(client),
            None => Err(Error::failed("No interface available".to_owned())),
        }
    }
}

/// Counts connections, and gives each its number.
pub struct Connector {
    pub connect_count: usize,
}

impl Connector {
    /// A count of no connections.
    pub fn new() -> (r: Self)
        ensures
            r.connect_count == 0,
    {
        Connector { connect_count: 0 }
    }

    /// A server for one more connection.
    pub fn connect<B>(&mut self) -> (r: TestInterfaceImpl<B>)
        requires
            old(self).connect_count < usize::MAX,
        ensures
            final(self).connect_count == old(self).connect_count + 1,
            r.error is None,
            r.generation == old(self).connect_count,
            r.block is None,
    {
        let generation: usize = self.connect_count;
        self.connect_count = self.connect_count + 1;
        TestInterfaceImpl::new(generation)
    }
}

/// A server answers with the number that it was asked with, the truth value, and
/// the number of its connection, each behind a space.
pub proof fn law_reply(i: u32, j: bool, generation: usize)
    ensures
        ({
            let first = decimal(i as nat);
            let third = decimal(generation as nat);
            let reply = reply_text(i, j, generation);
            &&& reply == if j {
                first + " true "@ + third
            } else {
                first + " false "@ + third
            }
            &&& crate::strings::digits_value(first) == i
            &&& crate::strings::digits_value(third) == generation
        }),
{
    reveal_strlit(" ");
    reveal_strlit("true");
    reveal_strlit("false");
    reveal_strlit(" true ");
    reveal_strlit(" false ");
    crate::strings::law_decimal(i as nat);
    crate::strings::law_decimal(generation as nat);
    let first = decimal(i as nat);
    let third = decimal(generation as nat);
    if j {
        assert(" "@ + "true"@ + " "@ =~= " true "@);
    } else {
        assert(" "@ + "false"@ + " "@ =~= " false "@);
    }
    assert(reply_text(i, j, generation) =~= first + (" "@ + bool_text(j) + " "@) + third);
}

} // verus!
