//! A client that sends tokens from a wallet.

use vstd::prelude::*;
use vstd::string::StringExecFns;

verus! {

/// What can go wrong when sending tokens.
#[derive(Clone, Debug, PartialEq, Eq)]
pub enum WalletError {
    /// The wallet could not send the tokens.
    CouldNotSendTokens(String),
}

/// A wallet client can be used to send and receive tokens to and from other
/// wallets. It holds the wallet and the client through which the wallet
/// reaches the network.
pub struct WalletClient<C, W> {
    client: C,
    wallet: W,
}

impl<C, W> WalletClient<C, W> {
    /// The client that the wallet reaches the network through.
    pub closed spec fn spec_client(&self) -> C {
        self.client
    }

    /// The wallet.
    pub closed spec fn spec_wallet(&self) -> W {
        self.wallet
    }

    /// Create a new wallet client.
    pub fn new(client: C, wallet: W) -> (res: Self)
        ensures
            res.spec_client() == client,
            res.spec_wallet() == wallet,
    {
        Self { client, wallet }
    }

    /// The client and the wallet, to send through.
    pub fn parts(&mut self) -> (res: (&C, &mut W))
        ensures
            *res.0 == old(self).spec_client(),
            *res.1 == old(self).spec_wallet(),
            final(self).spec_client() == old(self).spec_client(),
            final(self).spec_wallet() == *final(res.1),
    {
        (&self.client, &mut self.wallet)
    }

    /// Return the wallet.
    pub fn into_wallet(self) -> (wallet: W)
        ensures
            wallet == self.spec_wallet(),
    {
        self.wallet
    }
}

/// What is said where the wallet created nothing.
pub const NOTHING_CREATED: &'static str = "No DBCs were returned from the wallet.";

/// What a transfer to one recipient gives back, out of what the wallet
/// created for it: the first, or an error if the wallet created nothing.
pub fn sent<D>(created: Vec<D>) -> (res: core::result::Result<D, WalletError>)
    ensures
        created@.len() > 0 ==> res == Ok::<D, WalletError>(created@[0]),
        created@.len() == 0 ==> (res matches Err(WalletError::CouldNotSendTokens(reason))
            && reason@ == NOTHING_CREATED@),
{
    let mut created = created;
    if created.len() > 0 {
        Ok(created.swap_remove(0))
    } else {
        Err(
            WalletError::CouldNotSendTokens(
                String::from_str(NOTHING_CREATED),
            ),
        )
    }
}

} // verus!
