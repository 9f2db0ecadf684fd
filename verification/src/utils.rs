//! Padding arithmetic and the proof verifier.

use crate::digest::{fits_hash_input, hashable, sha256, sha256_digest, try_hash_pair};
use crate::merkle_tree::{steps_of, NodeOrder, ProofListItem, ProofStep};
use vstd::prelude::*;

verus! {

/// Whether `n` is a power of two.
pub open spec fn is_power_of_two(n: nat) -> bool
    decreases n,
{
    n == 1 || (n >= 2 && n % 2 == 0 && is_power_of_two(n / 2))
}

/// The number of times that `n` can be halved before 1 is left: the
/// logarithm of `n` to the base 2, rounded down.
pub open spec fn halvings(n: nat) -> nat
    decreases n,
{
    if n <= 1 {
        0
    } else {
        1 + halvings(n / 2)
    }
}

/// The least power of two that is not below `n`.
pub open spec fn next_power_of_two(n: nat) -> nat
    decreases n,
{
    if n <= 1 {
        1
    } else {
        2 * next_power_of_two((n + 1) / 2)
    }
}

/// `next_power_of_two(n)` is a power of two, it is not below `n`, and no
/// power of two between `n` and it is smaller.
pub proof fn lemma_next_power_of_two(n: nat)
    ensures
        is_power_of_two(next_power_of_two(n)),
        n <= next_power_of_two(n),
        n >= 1 ==> next_power_of_two(n) < 2 * n,
        forall|p: nat| is_power_of_two(p) && n <= p ==> next_power_of_two(n) <= p,
        is_power_of_two(n) ==> next_power_of_two(n) == n,
    decreases n,
{
    if n > 1 {
        let half = (n + 1) / 2;
        lemma_next_power_of_two(half);
        let r = next_power_of_two(half);
        assert(is_power_of_two(2 * r)) by {
            assert((2 * r) / 2 == r);
        }
        assert forall|p: nat| is_power_of_two(p) && n <= p implies 2 * r <= p by {
            assert(p >= 2);
            assert(is_power_of_two(p / 2));
            assert(half <= p / 2);
        }
        if is_power_of_two(n) {
            assert(next_power_of_two(n) <= n);
        }
    } else {
        assert forall|p: nat| is_power_of_two(p) implies 1 <= p by {}
    }
}

/// The least power of two that is not below `n`; 1 for `n == 0`.
pub fn closest_bigger_power_of_two(n: u32) -> (power: u32)
    requires
        n <= 0x8000_0000,
    ensures
        power == next_power_of_two(n as nat),
        is_power_of_two(power as nat),
        n <= power,
        forall|p: nat| is_power_of_two(p) && n <= p ==> power <= p,
{
    let mut power: u32 = 1;
    let mut rest: u32 = n;
    proof {
        lemma_next_power_of_two(n as nat);
        assert(is_power_of_two(0x8000_0000)) by {
            reveal_with_fuel(is_power_of_two, 32);
        }
    }
    while rest > 1
        invariant
            power >= 1,
            power * next_power_of_two(rest as nat) == next_power_of_two(n as nat),
            next_power_of_two(n as nat) <= 0x8000_0000,
            rest <= 0x8000_0000,
        decreases rest,
    {
        proof {
            let r = next_power_of_two(((rest + 1) / 2) as nat);
            assert(next_power_of_two(rest as nat) == 2 * r);
            assert(power * (2 * r) == (power * 2) * r) by (nonlinear_arith);
            lemma_next_power_of_two(((rest + 1) / 2) as nat);
            assert(power * 2 <= (power * 2) * r) by (nonlinear_arith)
                requires
                    r >= 1,
                    power >= 1,
            ;
        }
        power = power * 2;
        rest = (rest + 1) / 2;
    }
    assert(power * 1 == power);
    power
}

/// Whether some step of `steps` carries the digest `target`.
pub open spec fn lists_hash(steps: Seq<ProofStep>, target: Seq<u8>) -> bool {
    exists|i: int| 0 <= i < steps.len() && (#[trigger] steps[i]).hash == target
}

/// The bytes that are hashed when the step `later` is combined with the step
/// `earlier`, which stands before it in the list: the side of `earlier` says
/// which of the two digests comes first. There are none when `earlier` has no
/// side.
pub open spec fn combined_input(later: ProofStep, earlier: ProofStep) -> Option<Seq<u8>> {
    match earlier.order {
        Some(NodeOrder::Left) => Some(earlier.hash + later.hash),
        Some(NodeOrder::Right) => Some(later.hash + earlier.hash),
        None => None,
    }
}

/// The digest that a replay of `steps` arrives at.
///
/// A replay takes the last two steps off the list, combines them and puts the
/// digest of the combination back as a step without a side, until one step is
/// left. It fails on a list without steps, on a step without a side where one
/// is asked for, and on a combination too long to hash.
pub open spec fn replayed(steps: Seq<ProofStep>) -> Option<Seq<u8>>
    decreases steps.len(),
{
    if steps.len() == 0 {
        None
    } else if steps.len() == 1 {
        Some(steps[0].hash)
    } else {
        let later = steps[steps.len() - 1];
        let earlier = steps[steps.len() - 2];
        match combined_input(later, earlier) {
            Some(input) => if hashable(input) {
                replayed(
                    steps.take(steps.len() - 2).push(
                        ProofStep { hash: sha256(input), order: None },
                    ),
                )
            } else {
                None
            },
            None => None,
        }
    }
}

/// Whether `steps` proves that a file with content `content` is under the
/// root digest `root`: the list has two steps or more, one of them carries the
/// digest of the content, and its replay arrives at `root`.
pub open spec fn accepts(steps: Seq<ProofStep>, root: Seq<u8>, content: Seq<u8>) -> bool {
    &&& steps.len() >= 2
    &&& hashable(content)
    &&& lists_hash(steps, sha256(content))
    &&& replayed(steps) == Some(root)
}

/// Whether some item of `proof_list` carries the digest `target_hash`.
pub fn contains_hash(proof_list: &Vec<ProofListItem>, target_hash: &Vec<u8>) -> (found: bool)
    ensures
        found == lists_hash(steps_of(proof_list@), target_hash@),
{
    let mut i: usize = 0;
    while i < proof_list.len()
        invariant
            i <= proof_list@.len(),
            forall|k: int| 0 <= k < i ==> (#[trigger] steps_of(proof_list@)[k]).hash != target_hash@,
        decreases proof_list@.len() - i,
    {
        if proof_list[i].hash == *target_hash {
            assert(steps_of(proof_list@)[i as int].hash =~= target_hash@);
            return true;
        }
        assert(steps_of(proof_list@)[i as int].hash == proof_list@[i as int].hash@);
        i += 1;
    }
    false
}

/// Replays `proof_list` and says whether it proves that `file_contents` is
/// under the root digest `markle_root`.
///
/// A list that is too short, that does not carry the digest of the content,
/// or that cannot be replayed is turned down, as is one that arrives at
/// another digest.
pub fn verify_merkle_proof(
    proof_list: Vec<ProofListItem>,
    markle_root: Vec<u8>,
    file_contents: Vec<u8>,
) -> (valid: bool)
    ensures
        valid == accepts(steps_of(proof_list@), markle_root@, file_contents@),
        proof_list@.len() < 2 ==> !valid,
        !lists_hash(steps_of(proof_list@), sha256(file_contents@)) ==> !valid,
{
    let mut list = proof_list;
    if list.len() < 2 {
        return false;
    }
    if !fits_hash_input(file_contents.len()) {
        return false;
    }
    let hashed_file_contents = sha256_digest(file_contents.as_slice());
    if !contains_hash(&list, &hashed_file_contents) {
        return false;
    }
    let ghost given = steps_of(list@);
    while list.len() != 1
        invariant
            list@.len() >= 1,
            given == steps_of(proof_list@),
            replayed(steps_of(list@)) == replayed(given),
        decreases list@.len(),
    {
        let ghost steps = steps_of(list@);
        let h1 = list.pop().unwrap();
        let h2 = list.pop().unwrap();
        let ghost rest = steps_of(list@);
        proof {
            assert(h1@ == steps[steps.len() - 1]);
            assert(h2@ == steps[steps.len() - 2]);
            assert(rest =~= steps.take(steps.len() - 2));
        }
        let hash = match h2.order {
            Some(NodeOrder::Left) => try_hash_pair(&h2.hash, &h1.hash),
            Some(NodeOrder::Right) => try_hash_pair(&h1.hash, &h2.hash),
            None => None,
        };
        match hash {
            Some(hash) => {
                let item = ProofListItem::new(hash, None);
                list.push(item);
                assert(steps_of(list@) =~= rest.push(item@));
            },
            None => {
                assert(replayed(steps) is None);
                return false;
            },
        }
    }
    let ghost left_over = steps_of(list@);
    let last = list.pop().unwrap();
    proof {
        assert(left_over[0] == last@);
        assert(markle_root@ == last.hash@ <==> markle_root@ =~= last.hash@);
    }
    markle_root == last.hash
}

} // verus!
