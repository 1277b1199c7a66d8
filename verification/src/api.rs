//! The handle through which a transaction pool reaches the chain.

use std::marker::PhantomData;
use std::sync::Arc;
use vstd::prelude::*;

verus! {

/// Chain access for a transaction pool: a shared client, tagged with the
/// block type it serves.
pub struct ChainApi<T, Block> {
    client: Arc<T>,
    _marker: PhantomData<Block>,
}

impl<T, Block> ChainApi<T, Block> {
    /// The client that this handle shares.
    pub closed spec fn spec_client(&self) -> Arc<T> {
        self.client
    }

    /// Wraps `client`.
    pub fn new(client: Arc<T>) -> (api: Self)
        ensures
            api.spec_client() == client,
    {
        ChainApi { client, _marker: PhantomData }
    }

    /// Borrows the shared client.
    pub fn client(&self) -> (client: &Arc<T>)
        ensures
            *client == self.spec_client(),
    {
        &self.client
    }
}

} // verus!
