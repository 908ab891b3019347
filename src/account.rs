//! An account's credentials and connection state.

use vstd::prelude::*;

verus! {

/// The credentials an account connects with.
#[derive(Debug)]
pub struct ProseClientAccountCredentials {
    /// The bare address of the account.
    pub jid: String,
    pub password: String,
    /// The application the account connects from.
    pub origin: String,
}

/// Why an account could not be built.
#[derive(Debug, PartialEq, Eq, Structural)]
pub enum ProseClientAccountBuilderError {
    CredentialsNotSet,
}

/// Why an account operation failed.
#[derive(Debug, PartialEq, Eq, Structural)]
pub enum ProseClientAccountError {
    AlreadyConnected,
    AlreadyDisconnected,
    InvalidCredentials,
    DoesNotExist,
    Unknown,
}

/// Builds an account from its credentials.
#[derive(Debug)]
pub struct ProseClientAccountBuilder {
    pub credentials: Option<ProseClientAccountCredentials>,
}

/// An account and its connection. `B` is the broker of a live connection.
#[derive(Debug)]
pub struct ProseClientAccount<B> {
    pub credentials: ProseClientAccountCredentials,
    pub connected: bool,
    pub broker: Option<B>,
}

impl ProseClientAccountBuilder {
    pub fn new() -> (r: Self)
        ensures
            r.credentials is None,
    {
        ProseClientAccountBuilder { credentials: None }
    }

    /// Sets the credentials.
    pub fn credentials(self, jid: String, password: String, origin: String) -> (r: Self)
        ensures
            r.credentials == Some(ProseClientAccountCredentials { jid, password, origin }),
    {
        let mut b = self;
        b.credentials = Some(ProseClientAccountCredentials { jid, password, origin });
        b
    }

    /// The account, disconnected; fails without credentials.
    pub fn build<B>(self) -> (r: Result<ProseClientAccount<B>, ProseClientAccountBuilderError>)
        ensures
            self.credentials is None ==> r == Err::<ProseClientAccount<B>, ProseClientAccountBuilderError>(
                ProseClientAccountBuilderError::CredentialsNotSet,
            ),
            self.credentials matches Some(c) ==> (r matches Ok(a) && a.credentials == c && !a.connected
                && a.broker is None),
    {
        match self.credentials {
            Some(credentials) => Ok(ProseClientAccount { credentials, connected: false, broker: None }),
            None => Err(ProseClientAccountBuilderError::CredentialsNotSet),
        }
    }
}

impl<B> ProseClientAccount<B> {
    /// Marks the account as connected, before the connection is opened;
    /// fails when it already is.
    pub fn connect(&mut self) -> (r: Result<(), ProseClientAccountError>)
        ensures
            old(self).connected ==> r == Err::<(), ProseClientAccountError>(
                ProseClientAccountError::AlreadyConnected,
            ) && *final(self) == *old(self),
            !old(self).connected ==> r is Ok && final(self).connected && final(self).credentials
                == old(self).credentials && final(self).broker == old(self).broker,
    {
        if self.connected {
            return Err(ProseClientAccountError::AlreadyConnected);
        }
        self.connected = true;
        Ok(())
    }

    /// Hands the account the broker of its opened connection.
    pub fn attach_broker(&mut self, broker: B) -> (r: ())
        ensures
            final(self).broker == Some(broker),
            final(self).connected == old(self).connected,
            final(self).credentials == old(self).credentials,
    {
        self.broker = Some(broker);
    }

    /// Checks that the account can be disconnected; fails when it is not
    /// connected.
    pub fn disconnect(&self) -> (r: Result<(), ProseClientAccountError>)
        ensures
            !self.connected ==> r == Err::<(), ProseClientAccountError>(
                ProseClientAccountError::AlreadyDisconnected,
            ),
            self.connected ==> r is Ok,
    {
        if !self.connected {
            return Err(ProseClientAccountError::AlreadyDisconnected);
        }
        Ok(())
    }

    /// The broker of the live connection, if any.
    pub fn broker(&self) -> (r: Option<&B>)
        ensures
            r matches Some(b) ==> self.broker == Some(*b),
            r is None <==> self.broker is None,
    {
        match &self.broker {
            Some(b) => Some(b),
            None => None,
        }
    }
}

} // verus!
