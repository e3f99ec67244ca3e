//! The builder directory: immutable reference records for the known
//! block-building relay endpoints, ordered by landed blocks.

use vstd::prelude::*;

verus! {

/// Whether a builder requires signing for bundles.
///
/// If provided, the builder may give better priority to signed bundles.
#[derive(Debug, Clone, PartialEq, Eq, Structural)]
pub enum Signing {
    /// Bundle gets rejected if not signed.
    Required,
    /// Signing is optional and may give better priority.
    Optional,
    /// Builder does not support signing.
    NotSupported,
}

impl Signing {
    /// Returns true if the builder requires signing for bundles.
    pub fn is_required(&self) -> (r: bool)
        ensures
            r == (self is Required),
    {
        match self {
            Signing::Required => true,
            _ => false,
        }
    }

    /// Returns true if the builder supports signing, but it is optional.
    pub fn is_optional(&self) -> (r: bool)
        ensures
            r == (self is Optional),
    {
        match self {
            Signing::Optional => true,
            _ => false,
        }
    }

    /// Returns true if the builder does not support signing.
    pub fn is_not_supported(&self) -> (r: bool)
        ensures
            r == (self is NotSupported),
    {
        match self {
            Signing::NotSupported => true,
            _ => false,
        }
    }
}

/// Represents a builder with its details.
pub struct Builder<'a> {
    /// Human-readable name of the builder.
    pub name: &'a str,
    /// Unique identifier for the builder.
    pub identifier: &'a str,
    /// Website URL for the builder.
    pub website: &'a str,
    /// RPC endpoint for the searcher.
    pub searcher_rpc: &'a str,
    /// Optional RPC endpoint for MEV share.
    pub mev_share_rpc: Option<&'a str>,
    /// The extra data provided by the builder in a block, trimmed of
    /// surrounding spaces. Anyone can impersonate a builder through it.
    pub extra_data: Option<&'a str>,
    /// Indicates if the builder requires signing for bundles.
    pub signing: Signing,
    /// Requires account to use the RPC.
    pub account_required: bool,
    /// Number of blocks landed by this builder.
    pub blocks: u64,
}

impl<'a> Builder<'a> {
    /// Requires special handling for the builder: one needs a custom
    /// certificate or an insecure connection, the other an account.
    pub fn requires_extra_handling(&self) -> (r: bool)
        ensures
            r == (self.identifier@ == "buildernet"@ || self.identifier@ == "bloxroute"@),
    {
        str_eq(self.identifier, "buildernet") || str_eq(self.identifier, "bloxroute")
    }
}

/// Whether two string slices hold the same characters.
fn str_eq(a: &str, b: &str) -> (r: bool)
    ensures
        r == (a@ == b@),
{
    let a2 = a.to_owned();
    let b2 = b.to_owned();
    a2 == b2
}

/// The known builders with their details, ordered by landed blocks.
pub fn builders() -> (r: Vec<Builder<'static>>)
    ensures
        r@.len() >= 5,
        forall|i: int, j: int| 0 <= i < j < r@.len() ==> r@[i].blocks >= r@[j].blocks,
{
    let mut r: Vec<Builder<'static>> = Vec::new();
    r.push(
        Builder {
            name: "beaverbuild",
            identifier: "beaverbuild",
            website: "https://beaverbuild.org",
            searcher_rpc: "https://rpc.beaverbuild.org",
            mev_share_rpc: None,
            extra_data: Some("beaverbuild.org"),
            signing: Signing::NotSupported,
            account_required: false,
            blocks: 982345,
        },
    );
    r.push(
        Builder {
            name: "Titan Builder",
            identifier: "titan",
            website: "https://www.titanbuilder.xyz",
            searcher_rpc: "https://rpc.titanbuilder.xyz",
            mev_share_rpc: None,
            extra_data: Some("Titan (titanbuilder.xyz)"),
            signing: Signing::Optional,
            account_required: false,
            blocks: 874560,
        },
    );
    r.push(
        Builder {
            name: "rsync-builder",
            identifier: "rsync",
            website: "https://rsync-builder.xyz",
            searcher_rpc: "https://rsync-builder.xyz/rpc",
            mev_share_rpc: None,
            extra_data: Some("@rsyncbuilder"),
            signing: Signing::NotSupported,
            account_required: false,
            blocks: 301223,
        },
    );
    r.push(
        Builder {
            name: "Flashbots",
            identifier: "flashbots",
            website: "https://www.flashbots.net",
            searcher_rpc: "https://relay.flashbots.net",
            mev_share_rpc: Some("https://mev-share.flashbots.net"),
            extra_data: Some("Illuminate Dmocratize Dstribute"),
            signing: Signing::Required,
            account_required: false,
            blocks: 150894,
        },
    );
    r.push(
        Builder {
            name: "builder0x69",
            identifier: "builder0x69",
            website: "https://builder0x69.io",
            searcher_rpc: "https://builder0x69.io/rpc",
            mev_share_rpc: None,
            extra_data: Some("by builder0x69"),
            signing: Signing::NotSupported,
            account_required: false,
            blocks: 78112,
        },
    );
    r.push(
        Builder {
            name: "bloXroute",
            identifier: "bloxroute",
            website: "https://bloxroute.com",
            searcher_rpc: "https://mev.api.blxrbdn.com",
            mev_share_rpc: None,
            extra_data: Some("Powered by bloXroute"),
            signing: Signing::Optional,
            account_required: true,
            blocks: 44560,
        },
    );
    r.push(
        Builder {
            name: "BuilderNet",
            identifier: "buildernet",
            website: "https://buildernet.org",
            searcher_rpc: "https://rpc.buildernet.org",
            mev_share_rpc: Some("https://mev-share.buildernet.org"),
            extra_data: Some("BuilderNet"),
            signing: Signing::Optional,
            account_required: false,
            blocks: 31207,
        },
    );
    r.push(
        Builder {
            name: "penguinbuild",
            identifier: "penguinbuild",
            website: "https://penguinbuild.org",
            searcher_rpc: "https://rpc.penguinbuild.org",
            mev_share_rpc: None,
            extra_data: Some("penguinbuild.org"),
            signing: Signing::NotSupported,
            account_required: false,
            blocks: 12840,
        },
    );
    r
}

} // verus!
