use crate::id::{be32, byte_of_u32, lemma_be32_bytes, lemma_bytes_be32, pack32, unpack32};
use vstd::prelude::*;

verus! {

/// Number of bytes of a transaction id that name the action.
pub const ACTION_ID_BYTES: usize = 4;

/// Number of bytes of a transaction id that count the messages of the action.
pub const MESSAGE_ID_BYTES: usize = 4;

/// Number of bytes of a transaction id on the wire.
pub const TRANSACTION_ID_BYTES: usize = 8;

/// Names one long-running procedure of the worker.
#[derive(Clone, Copy, Debug, PartialEq, Eq, Hash, Structural)]
pub struct ActionID {
    pub id: u32,
}

/// Tags one message: the action that sent it and its number within the action.
#[derive(Clone, Copy, Debug, PartialEq, Eq, Hash, Structural)]
pub struct TransactionID {
    pub action: u32,
    pub message: u32,
}

/// Hands out action ids, each with a generator for the transaction ids of that action.
#[derive(Clone, Copy, Debug)]
pub struct AIDGenerator {
    pub next_alloc: u32,
}

/// Hands out the transaction ids of one action, in sequence.
#[derive(Clone, Copy, Debug)]
pub struct MIDGenerator {
    pub action_id: ActionID,
    pub next_alloc: u32,
}

/// The number after `n`, starting over at zero after the largest.
pub open spec fn successor(n: u32) -> u32 {
    if n == u32::MAX {
        0
    } else {
        (n + 1) as u32
    }
}

/// The number `steps` after `n`, starting over at zero after the largest.
pub open spec fn nth_successor(n: u32, steps: nat) -> u32 {
    ((n + steps) % 0x1_0000_0000) as u32
}

/// The successor of the number `steps` after `n` is the number `steps + 1` after `n`.
pub proof fn lemma_nth_successor(n: u32, steps: nat)
    ensures
        nth_successor(n, 0) == n,
        successor(nth_successor(n, steps)) == nth_successor(n, steps + 1),
{
    let m = (n + steps) as int;
    vstd::arithmetic::div_mod::lemma_fundamental_div_mod(m, 0x1_0000_0000);
    vstd::arithmetic::div_mod::lemma_fundamental_div_mod(m + 1, 0x1_0000_0000);
    if m % 0x1_0000_0000 == 0xffff_ffff {
        vstd::arithmetic::div_mod::lemma_fundamental_div_mod_converse(
            m + 1,
            0x1_0000_0000,
            m / 0x1_0000_0000 + 1,
            0,
        );
    } else {
        vstd::arithmetic::div_mod::lemma_fundamental_div_mod_converse(
            m + 1,
            0x1_0000_0000,
            m / 0x1_0000_0000,
            m % 0x1_0000_0000 + 1,
        );
    }
}

impl ActionID {
    pub fn new(id: u32) -> (action_id: ActionID)
        ensures
            action_id.id == id,
    {
        ActionID { id }
    }
}

impl TransactionID {
    /// The transaction id that eight bytes denote: the action id first, the
    /// message number after it, each with its most significant byte first.
    pub open spec fn spec_from_bytes(bytes: Seq<u8>) -> Option<TransactionID> {
        if bytes.len() == TRANSACTION_ID_BYTES {
            Some(
                TransactionID {
                    action: be32(bytes[0], bytes[1], bytes[2], bytes[3]) as u32,
                    message: be32(bytes[4], bytes[5], bytes[6], bytes[7]) as u32,
                },
            )
        } else {
            None
        }
    }

    /// The eight bytes of the transaction id on the wire.
    pub open spec fn spec_to_bytes(self) -> Seq<u8> {
        seq![
            byte_of_u32(self.action, 0),
            byte_of_u32(self.action, 1),
            byte_of_u32(self.action, 2),
            byte_of_u32(self.action, 3),
            byte_of_u32(self.message, 0),
            byte_of_u32(self.message, 1),
            byte_of_u32(self.message, 2),
            byte_of_u32(self.message, 3),
        ]
    }

    /// Reads a transaction id from the tag of a message. A tag of any other
    /// length than eight bytes is not one of ours.
    pub fn from_bytes(bytes: &[u8]) -> (id: Option<TransactionID>)
        ensures
            id == TransactionID::spec_from_bytes(bytes@),
    {
        if bytes.len() != TRANSACTION_ID_BYTES {
            return None;
        }
        Some(
            TransactionID {
                action: pack32(bytes[0], bytes[1], bytes[2], bytes[3]),
                message: pack32(bytes[4], bytes[5], bytes[6], bytes[7]),
            },
        )
    }

    /// The tag to put on a message.
    pub fn to_bytes(&self) -> (bytes: Vec<u8>)
        ensures
            bytes@ == self.spec_to_bytes(),
            TransactionID::spec_from_bytes(bytes@) == Some(*self),
    {
        let mut bytes: Vec<u8> = Vec::new();
        bytes.push(unpack32(self.action, 0));
        bytes.push(unpack32(self.action, 1));
        bytes.push(unpack32(self.action, 2));
        bytes.push(unpack32(self.action, 3));
        bytes.push(unpack32(self.message, 0));
        bytes.push(unpack32(self.message, 1));
        bytes.push(unpack32(self.message, 2));
        bytes.push(unpack32(self.message, 3));
        proof {
            assert(bytes@ =~= self.spec_to_bytes());
            TransactionID::lemma_to_bytes_from_bytes(*self);
        }
        bytes
    }

    /// The action that the transaction belongs to.
    pub fn action_id(&self) -> (action_id: ActionID)
        ensures
            action_id.id == self.action,
    {
        ActionID { id: self.action }
    }

    /// The number of the message within its action.
    pub fn message_id(&self) -> (message_id: u32)
        ensures
            message_id == self.message,
    {
        self.message
    }

    /// A transaction id, written as a tag and read again, is unchanged.
    pub proof fn lemma_to_bytes_from_bytes(id: TransactionID)
        ensures
            TransactionID::spec_from_bytes(id.spec_to_bytes()) == Some(id),
    {
        lemma_bytes_be32(id.action);
        lemma_bytes_be32(id.message);
    }
}

impl AIDGenerator {
    /// A generator that has handed out no action id yet.
    pub fn new() -> (generator: AIDGenerator)
        ensures
            generator.next_alloc == 0,
    {
        AIDGenerator { next_alloc: 0 }
    }

    /// The generator for the transaction ids of the next action.
    pub fn generate(&mut self) -> (generator: MIDGenerator)
        ensures
            generator.action_id.id == old(self).next_alloc,
            generator.next_alloc == 0,
            final(self).next_alloc == successor(old(self).next_alloc),
    {
        let action_id = ActionID { id: self.next_alloc };
        self.next_alloc = self.next_alloc.wrapping_add(1);
        MIDGenerator { action_id, next_alloc: 0 }
    }
}

impl AIDGenerator {
    /// The generator for the transaction ids of the next action, as long as
    /// an action id is left that was never handed out. No action id is
    /// handed out twice this way.
    pub fn try_generate(&mut self) -> (generator: Option<MIDGenerator>)
        ensures
            match generator {
                Some(g) => old(self).next_alloc < u32::MAX && g.action_id.id == old(self).next_alloc
                    && g.next_alloc == 0 && final(self).next_alloc == old(self).next_alloc + 1,
                None => old(self).next_alloc == u32::MAX && final(self).next_alloc == u32::MAX,
            },
    {
        if self.next_alloc == u32::MAX {
            return None;
        }
        let action_id = ActionID { id: self.next_alloc };
        self.next_alloc = self.next_alloc + 1;
        Some(MIDGenerator { action_id, next_alloc: 0 })
    }
}

impl MIDGenerator {
    pub fn new(action_id: ActionID) -> (generator: MIDGenerator)
        ensures
            generator.action_id == action_id,
            generator.next_alloc == 0,
    {
        MIDGenerator { action_id, next_alloc: 0 }
    }

    /// The action whose transaction ids the generator hands out.
    pub fn action_id(&self) -> (action_id: ActionID)
        ensures
            action_id == self.action_id,
    {
        self.action_id
    }

    /// The next transaction id of the action.
    pub fn generate(&mut self) -> (id: TransactionID)
        ensures
            id.action == old(self).action_id.id,
            id.message == old(self).next_alloc,
            final(self).action_id == old(self).action_id,
            final(self).next_alloc == successor(old(self).next_alloc),
    {
        let id = TransactionID { action: self.action_id.id, message: self.next_alloc };
        self.next_alloc = self.next_alloc.wrapping_add(1);
        id
    }
}

} // verus!
