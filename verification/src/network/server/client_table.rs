use vstd::prelude::*;

use crate::network::address::SocketAddress;
use crate::table::Table;

use super::client_connection::ClientConnection;
use super::server::ServerError;

verus! {

/// Stores address to client connection information, along with the blacklist of IPv6 addresses.
#[derive(Debug)]
pub struct ClientTable {
    /// Maps IP address & port to a client.
    address_to_client: Table<SocketAddress, ClientConnection>,
    /// IPv6 addresses whose packets are discarded, whatever port they come from.
    blacklist: Vec<u128>,
}

impl ClientTable {
    /// The connected clients by address.
    pub closed spec fn clients(&self) -> Map<SocketAddress, ClientConnection> {
        self.address_to_client.map()
    }

    /// The addresses of the connected clients, in storage order.
    pub closed spec fn order(&self) -> Seq<SocketAddress> {
        self.address_to_client.keys()
    }

    /// Every connected client's address occurs once in the order, and the order holds nothing else.
    pub proof fn lemma_order(&self)
        requires
            self.wf(),
        ensures
            self.order().no_duplicates(),
            forall|address: SocketAddress| #[trigger]
                self.clients().dom().contains(address) <==> self.order().contains(address),
            self.clients().dom().finite(),
            self.clients().dom().len() == self.order().len(),
    {
        self.address_to_client.lemma_keys();
    }

    /// The blacklisted IPv6 addresses.
    pub closed spec fn blacklist_spec(&self) -> Set<u128> {
        Set::new(|ip: u128| self.blacklist@.contains(ip))
    }

    pub closed spec fn wf(&self) -> bool {
        self.address_to_client.wf()
    }

    pub fn new() -> (table: Self)
        ensures
            table.wf(),
            table.clients() == Map::<SocketAddress, ClientConnection>::empty(),
            table.blacklist_spec() == Set::<u128>::empty(),
    {
        let table = ClientTable { address_to_client: Table::new(), blacklist: Vec::new() };
        proof {
            assert(table.blacklist_spec() =~= Set::<u128>::empty());
        }
        table
    }

    /// Takes the client using the specified address out of the table.
    pub fn take_client(&mut self, source: &SocketAddress) -> (result: Result<ClientConnection, ServerError>)
        requires
            old(self).wf(),
        ensures
            final(self).wf(),
            final(self).blacklist_spec() == old(self).blacklist_spec(),
            final(self).clients() == old(self).clients().remove(*source),
            old(self).clients().dom().contains(*source) ==> (result matches Ok(client) && client == old(
                self,
            ).clients()[*source]),
            !old(self).clients().dom().contains(*source) ==> result matches Err(ServerError::CouldNotFindClient),
    {
        match self.address_to_client.remove(source) {
            Some(client) => Ok(client),
            None => Err(ServerError::CouldNotFindClient),
        }
    }

    /// The client using the specified address.
    pub fn get_client(&self, source: &SocketAddress) -> (result: Result<&ClientConnection, ServerError>)
        requires
            self.wf(),
        ensures
            self.clients().dom().contains(*source) ==> (result matches Ok(client) && *client == self.clients()[
                *source]),
            !self.clients().dom().contains(*source) ==> result matches Err(ServerError::CouldNotFindClient),
    {
        match self.address_to_client.get(source) {
            Some(client) => Ok(client),
            None => Err(ServerError::CouldNotFindClient),
        }
    }

    /// Determine if a client exists in the table.
    pub fn has_client(&self, source: &SocketAddress) -> (result: bool)
        requires
            self.wf(),
        ensures
            result == self.clients().dom().contains(*source),
    {
        self.address_to_client.contains_key(source)
    }

    /// Add a client to the table.
    pub fn add_client(&mut self, source: SocketAddress, client_connection: ClientConnection)
        requires
            old(self).wf(),
        ensures
            final(self).wf(),
            final(self).clients() == old(self).clients().insert(source, client_connection),
            final(self).blacklist_spec() == old(self).blacklist_spec(),
    {
        self.address_to_client.insert(source, client_connection);
    }

    /// Remove a client from the table.
    pub fn remove_client(&mut self, source: &SocketAddress)
        requires
            old(self).wf(),
        ensures
            final(self).wf(),
            final(self).clients() == old(self).clients().remove(*source),
            final(self).blacklist_spec() == old(self).blacklist_spec(),
    {
        let _ = self.address_to_client.remove(source);
    }

    /// The addresses of the connected clients, each once.
    pub fn client_addresses(&self) -> (addresses: Vec<SocketAddress>)
        requires
            self.wf(),
        ensures
            addresses@ == self.order(),
            addresses@.no_duplicates(),
            forall|address: SocketAddress| #[trigger]
                self.clients().dom().contains(address) <==> addresses@.contains(address),
    {
        proof {
            self.address_to_client.lemma_keys();
        }
        let mut addresses: Vec<SocketAddress> = Vec::new();
        let count = self.address_to_client.len();
        for i in 0..count
            invariant
                count == self.address_to_client.keys().len(),
                addresses@ == self.address_to_client.keys().take(i as int),
        {
            addresses.push(self.address_to_client.key_at(i));
            proof {
                assert(self.address_to_client.keys().take(i + 1) =~= self.address_to_client.keys().take(
                    i as int,
                ).push(self.address_to_client.keys()[i as int]));
            }
        }
        proof {
            assert(self.address_to_client.keys().take(count as int) =~= self.address_to_client.keys());
        }
        addresses
    }

    /// Add an IP address to the blacklist.
    pub fn add_to_blacklist(&mut self, address: u128)
        requires
            old(self).wf(),
        ensures
            final(self).wf(),
            final(self).blacklist_spec() == old(self).blacklist_spec().insert(address),
            final(self).clients() == old(self).clients(),
    {
        let ghost before = self.blacklist@;
        self.blacklist.push(address);
        proof {
            let after = self.blacklist@;
            assert forall|x: u128| after.contains(x) <==> (before.contains(x) || x == address) by {
                if after.contains(x) {
                    let i = choose|i: int| 0 <= i < after.len() && after[i] == x;
                    if i < before.len() {
                        assert(before[i] == x);
                    }
                }
                if before.contains(x) {
                    let i = choose|i: int| 0 <= i < before.len() && before[i] == x;
                    assert(after[i] == x);
                }
                if x == address {
                    assert(after[before.len() as int] == address);
                }
            }
            assert(self.blacklist_spec() =~= old(self).blacklist_spec().insert(address));
        }
    }

    /// Check if an IP address is in the blacklist.
    pub fn is_in_blacklist(&self, address: u128) -> (result: bool)
        ensures
            result == self.blacklist_spec().contains(address),
    {
        for i in 0..self.blacklist.len()
            invariant
                forall|j: int| 0 <= j < i ==> self.blacklist@[j] != address,
        {
            if self.blacklist[i] == address {
                proof {
                    assert(self.blacklist@.contains(address));
                }
                return true;
            }
        }
        false
    }
}

} // verus!
