//! The MD2 compression function of the `md2` crate, as a check on what a
//! search has found: the messages of a collision must all compress to the
//! same chaining value.

use md2::block_api::Md2Core;
use md2::digest::array::Array;
use md2::digest::block_api::UpdateCore;
use md2::digest::common::hazmat::SerializableState;
use vstd::prelude::*;
use crate::collector::{same_bytes, strings};
use crate::rounds::BLOCK_LEN;

verus! {

/// The number of bytes in the state of the hasher: the 48 working bytes and
/// the 16 bytes of the checksum.
pub const STATE_LEN: usize = 64;

/// The state of a fresh `md2` hasher core after it has taken in the one
/// block `block`, as the crate serialises it.
pub uninterp spec fn md2_state_after(block: Seq<u8>) -> Seq<u8>;

/// The chaining value that MD2 reaches from the all-zero one by the block
/// `block`: the first 16 bytes of the hasher's state.
pub open spec fn md2_digest_of(block: Seq<u8>) -> Seq<u8> {
    md2_state_after(block).take(BLOCK_LEN as int)
}

/// Feeds one block to a fresh `md2::block_api::Md2Core` with
/// `UpdateCore::update_blocks` and returns its state as
/// `SerializableState::serialize` gives it. Nothing is proved of the
/// outside code: the state is taken to depend on the block alone and to
/// have the 64 bytes of the crate's `SerializedStateSize`.
#[verifier::external_body]
fn md2_update(block: &[u8; 16]) -> (state: Vec<u8>)
    ensures
        state@ == md2_state_after(block@),
        state@.len() == STATE_LEN,
{
    let mut core = Md2Core::default();
    core.update_blocks(&[Array::from(*block)]);
    core.serialize().to_vec()
}

/// Compresses one message block with the `md2` crate, from the all-zero
/// chaining value. A message that is not 16 bytes long is no block and
/// gives `None`.
pub fn md2_compress(message: &[u8]) -> (digest: Option<Vec<u8>>)
    ensures
        match digest {
            Some(d) => message@.len() == BLOCK_LEN && d@ == md2_digest_of(message@),
            None => message@.len() != BLOCK_LEN,
        },
{
    if message.len() != BLOCK_LEN {
        return None;
    }
    let mut block: [u8; 16] = [0u8; 16];
    let mut i: usize = 0;
    while i < BLOCK_LEN
        invariant
            i <= BLOCK_LEN,
            message@.len() == BLOCK_LEN,
            forall|j: int| 0 <= j < i ==> block@[j] == message@[j],
        decreases BLOCK_LEN - i,
    {
        block[i] = message[i];
        i += 1;
    }
    assert(block@ =~= message@);
    let mut state = md2_update(&block);
    state.truncate(BLOCK_LEN);
    assert(state@ =~= md2_digest_of(message@));
    Some(state)
}

/// Whether all of the byte strings are equal to the first.
pub open spec fn all_equal(strings: Seq<Seq<u8>>) -> bool {
    forall|i: int| 0 <= i < strings.len() ==> #[trigger] strings[i] == strings[0]
}

/// Whether all of the byte strings are equal to the first.
pub fn all_same(digests: &Vec<Vec<u8>>) -> (same: bool)
    ensures
        same == all_equal(strings(digests@)),
{
    let ghost all = strings(digests@);
    let mut i: usize = 1;
    while i < digests.len()
        invariant
            1 <= i,
            all == strings(digests@),
            forall|j: int| 0 <= j < i && j < all.len() ==> #[trigger] all[j] == all[0],
        decreases digests@.len() - i,
    {
        if !same_bytes(digests[i].as_slice(), digests[0].as_slice()) {
            assert(all[i as int] != all[0]);
            return false;
        }
        i += 1;
    }
    true
}

/// Whether every message is a block of 16 bytes.
pub open spec fn all_blocks(messages: Seq<Seq<u8>>) -> bool {
    forall|i: int| 0 <= i < messages.len() ==> (#[trigger] messages[i]).len() == BLOCK_LEN
}

/// Whether the `md2` crate compresses every message to the chaining value
/// of the first.
pub open spec fn all_collide(messages: Seq<Seq<u8>>) -> bool {
    forall|i: int|
        0 <= i < messages.len() ==> md2_digest_of(#[trigger] messages[i]) == md2_digest_of(
            messages[0],
        )
}

/// Checks a collision against the `md2` crate: whether its messages are
/// blocks that all compress to the same chaining value.
pub fn check_collision(collision: &Vec<Vec<u8>>) -> (ok: bool)
    ensures
        ok == (all_blocks(strings(collision@)) && all_collide(strings(collision@))),
{
    let ghost messages = strings(collision@);
    let mut digests: Vec<Vec<u8>> = Vec::new();
    let mut i: usize = 0;
    while i < collision.len()
        invariant
            i <= collision@.len(),
            messages == strings(collision@),
            digests@.len() == i,
            forall|j: int| 0 <= j < i ==> (#[trigger] messages[j]).len() == BLOCK_LEN,
            forall|j: int| 0 <= j < i ==> (#[trigger] digests@[j])@ == md2_digest_of(messages[j]),
        decreases collision@.len() - i,
    {
        assert(messages[i as int] == collision@[i as int]@);
        match md2_compress(collision[i].as_slice()) {
            None => {
                return false;
            },
            Some(digest) => {
                digests.push(digest);
            },
        }
        i += 1;
    }
    let same = all_same(&digests);
    proof {
        let all = strings(digests@);
        if same {
            assert forall|j: int| 0 <= j < messages.len() implies md2_digest_of(
                #[trigger] messages[j],
            ) == md2_digest_of(messages[0]) by {
                assert(all[j] == all[0]);
            }
        } else {
            let j = choose|j: int| 0 <= j < all.len() && #[trigger] all[j] != all[0];
            assert(md2_digest_of(messages[j]) != md2_digest_of(messages[0]));
        }
    }
    same
}

/// Checks every collision against the `md2` crate.
pub fn validate(collisions: &Vec<Vec<Vec<u8>>>) -> (ok: bool)
    ensures
        ok == forall|i: int|
            0 <= i < collisions@.len() ==> all_blocks(strings(#[trigger] collisions@[i]@))
                && all_collide(strings(collisions@[i]@)),
{
    let mut i: usize = 0;
    while i < collisions.len()
        invariant
            i <= collisions@.len(),
            forall|j: int|
                0 <= j < i ==> all_blocks(strings(#[trigger] collisions@[j]@)) && all_collide(
                    strings(collisions@[j]@),
                ),
        decreases collisions@.len() - i,
    {
        if !check_collision(&collisions[i]) {
            return false;
        }
        i += 1;
    }
    true
}

} // verus!
