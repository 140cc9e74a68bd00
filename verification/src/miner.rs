//! What a miner decides: when to fetch or check a template, and one round of mining.
use vstd::prelude::*;

use crate::block::{header_matches_target, nonce_offset, Block};

verus! {

/// Command line of the miner.
pub struct Cli {
    /// Node socket address to connect to
    pub address: String,
    /// Pay the mining reward to this public key
    pub public_key_file: String,
}

/// What the miner asks of its node on a tick.
#[derive(Clone, Copy, Debug, PartialEq, Eq, Structural)]
pub enum TickAction {
    /// Ask for a new template
    FetchTemplate,
    /// Ask whether the current template is still valid
    ValidateTemplate,
    /// There is no template to validate
    Nothing,
}

/// The miner's state: whether it is mining, and the template it mines.
pub struct MinerState {
    pub mining: bool,
    pub template: Option<Block>,
}

impl MinerState {
    /// Not mining, and no template yet.
    pub fn new() -> (r: MinerState)
        ensures
            !r.mining,
            r.template is None,
    {
        MinerState { mining: false, template: None }
    }

    /// On each tick: fetch a template when not mining, validate the current one otherwise.
    pub fn on_tick(&self) -> (r: TickAction)
        ensures
            r == if !self.mining {
                TickAction::FetchTemplate
            } else if self.template is Some {
                TickAction::ValidateTemplate
            } else {
                TickAction::Nothing
            },
    {
        if !self.mining {
            TickAction::FetchTemplate
        } else if self.template.is_some() {
            TickAction::ValidateTemplate
        } else {
            TickAction::Nothing
        }
    }

    /// A new template arrived: mine it.
    pub fn on_template(&mut self, template: Block)
        ensures
            final(self).mining,
            final(self).template == Some(template),
    {
        self.template = Some(template);
        self.mining = true;
    }

    /// The node answered whether the template is still valid: stop mining when it is not.
    pub fn on_validity(&mut self, valid: bool)
        ensures
            final(self).mining == (old(self).mining && valid),
            final(self).template == old(self).template,
    {
        if !valid {
            self.mining = false;
        }
    }

    /// A mined block was submitted: stop mining until a new template arrives.
    pub fn on_submitted(&mut self)
        ensures
            !final(self).mining,
            final(self).template == old(self).template,
    {
        self.mining = false;
    }

    /// One round of the mining thread: when mining a template, a copy of it tries `steps`
    /// nonces; a block whose hash matches its target is handed out and mining stops.
    pub fn mine_round(&mut self, steps: usize) -> (r: Option<Block>)
        ensures
            final(self).template == old(self).template,
            !(old(self).mining && old(self).template is Some) ==> r is None && final(self).mining
                == old(self).mining,
            r is None ==> final(self).mining == old(self).mining,
            r matches Some(b) ==> {
                &&& old(self).mining
                &&& !final(self).mining
                &&& old(self).template matches Some(t) && b@.transactions == t@.transactions
                    && b.header.prev_block_hash == t.header.prev_block_hash
                    && b.header.merkle_root == t.header.merkle_root && b.header.target
                    == t.header.target
                &&& header_matches_target(b.header)
            },
            old(self).template matches Some(t) ==> (old(self).mining && header_matches_target(
                t.header,
            ) ==> (r matches Some(b) && b.header == t.header)),
            old(self).template matches Some(t) ==> (old(self).mining && t.header.nonce + steps
                <= u64::MAX ==> exists|k: int|
                0 <= k <= steps && (forall|j: int|
                    0 <= j < k ==> !header_matches_target(#[trigger] nonce_offset(t.header, j)))
                    && match r {
                    Some(b) => b.header == #[trigger] nonce_offset(t.header, k),
                    None => k == steps && !header_matches_target(nonce_offset(t.header, k)),
                }),
    {
        if !self.mining {
            return None;
        }
        match &self.template {
            None => None,
            Some(t) => {
                let mut block = t.clone();
                if block.header.mine(steps) {
                    self.mining = false;
                    Some(block)
                } else {
                    None
                }
            },
        }
    }
}

} // verus!
