//! The Bitcoin networks, and what each of them means for keys and addresses.

use vstd::prelude::*;

verus! {

/// A Bitcoin network.
#[derive(Debug, Clone, Copy, PartialEq, Eq, Structural)]
pub enum Network {
    Bitcoin,
    Testnet,
    Testnet4,
    Signet,
    Regtest,
}

/// Whether a key belongs to the main network or to some test network.
#[derive(Debug, Clone, Copy, PartialEq, Eq, Structural)]
pub enum NetworkKind {
    Main,
    Test,
}

/// The networks that silent payment addresses tell apart.
#[derive(Debug, Clone, Copy, PartialEq, Eq, Structural)]
pub enum SpNetwork {
    Mainnet,
    Testnet,
    Regtest,
}

impl View for SpNetwork {
    type V = Seq<char>;

    /// The human-readable part of the addresses of this network.
    open spec fn view(&self) -> Seq<char> {
        match self {
            SpNetwork::Mainnet => "sp"@,
            SpNetwork::Testnet => "tsp"@,
            SpNetwork::Regtest => "sprt"@,
        }
    }
}

impl Network {
    /// The address network: every public test network shares the "tsp" prefix.
    pub open spec fn sp_network(self) -> SpNetwork {
        match self {
            Network::Bitcoin => SpNetwork::Mainnet,
            Network::Testnet => SpNetwork::Testnet,
            Network::Testnet4 => SpNetwork::Testnet,
            Network::Signet => SpNetwork::Testnet,
            Network::Regtest => SpNetwork::Regtest,
        }
    }

    /// The key network: everything but the main network is a test network.
    pub open spec fn kind(self) -> NetworkKind {
        if self == Network::Bitcoin { NetworkKind::Main } else { NetworkKind::Test }
    }

    /// The coin type of the BIP-352 derivation path.
    pub open spec fn coin_type(self) -> u32 {
        if self == Network::Bitcoin { 0 } else { 1 }
    }
}

/// The address network of `network`.
pub fn to_sp_network(network: &Network) -> (r: SpNetwork)
    ensures
        r == network.sp_network(),
{
    match network {
        Network::Bitcoin => SpNetwork::Mainnet,
        Network::Testnet | Network::Testnet4 | Network::Signet => SpNetwork::Testnet,
        Network::Regtest => SpNetwork::Regtest,
    }
}

/// The key network of `network`.
pub fn to_network_kind(network: &Network) -> (r: NetworkKind)
    ensures
        r == network.kind(),
{
    match network {
        Network::Bitcoin => NetworkKind::Main,
        _ => NetworkKind::Test,
    }
}

/// The coin type that the BIP-352 derivation path has on `network`.
pub fn bip352_coin_type(network: &Network) -> (r: u32)
    ensures
        r == network.coin_type(),
{
    match network {
        Network::Bitcoin => 0,
        _ => 1,
    }
}

} // verus!
