//! What a rotation does to a vector, round by round and without rounding.

#[allow(unused_imports)]
use crate::algebra::product;
use crate::arith::Arithmetic;
#[allow(unused_imports)]
use crate::drift::lemma_normalizing;
#[allow(unused_imports)]
use crate::exact::{
    law_rotation_undone, law_transform_closed, law_unrotated_dimension, signed_rotation, signed_sum,
    unit_sign,
};
#[allow(unused_imports)]
use crate::hadamard::{blockwise, lemma_blockwise_len, normalized};
#[allow(unused_imports)]
use crate::laws::lemma_forward_len;
#[allow(unused_imports)]
use crate::pairing::{matching, touches};
use crate::pairing::Swap;
#[allow(unused_imports)]
use crate::rotation::{padded, swap_pass, unswap_pass, unswap_step, RotationModel};
use vstd::arithmetic::power2::lemma2_to64;
use vstd::prelude::*;

verus! {

/// No index is in two places of the swaps.
pub open spec fn disjoint(swaps: Seq<Swap>) -> bool {
    &&& forall|a: int| 0 <= a < swaps.len() ==> (#[trigger] swaps[a]).i != swaps[a].j
    &&& forall|a: int, b: int|
        0 <= a < swaps.len() && 0 <= b < swaps.len() && a != b ==> {
            &&& (#[trigger] swaps[a]).i != (#[trigger] swaps[b]).i
            &&& swaps[a].i != swaps[b].j
            &&& swaps[a].j != swaps[b].j
        }
}

/// None of the swaps has `k` as an index.
pub open spec fn untouched(swaps: Seq<Swap>, k: int) -> bool {
    forall|a: int| 0 <= a < swaps.len() ==> (#[trigger] swaps[a]).i != k && swaps[a].j != k
}

/// `w` is `x` with the two elements of each swap exchanged, each times the sign
/// of its new place; other elements stay.
pub open spec fn turned(
    x: Seq<real>,
    w: Seq<real>,
    swaps: Seq<Swap>,
    signs: Seq<real>,
) -> bool {
    &&& w.len() == x.len()
    &&& forall|a: int|
        0 <= a < swaps.len() ==> {
            let s = #[trigger] swaps[a];
            &&& w[s.i as int] == product(signs[s.i as int], x[s.j as int])
            &&& w[s.j as int] == product(signs[s.j as int], x[s.i as int])
        }
    &&& forall|k: int| 0 <= k < x.len() && untouched(swaps, k) ==> #[trigger] w[k] == x[k]
}

/// Disjoint swaps, one after the other.
proof fn lemma_turned(x: Seq<real>, swaps: Seq<Swap>, signs: Seq<real>)
    requires
        disjoint(swaps),
        forall|a: int|
            0 <= a < swaps.len() ==> (#[trigger] swaps[a]).i < x.len() && swaps[a].j < x.len(),
    ensures
        turned(x, swap_pass(x, swaps, signs), swaps, signs),
    decreases swaps.len(),
{
    let w = swap_pass(x, swaps, signs);
    if swaps.len() > 0 {
        let rest = swaps.drop_last();
        let last = swaps.last();
        let v = swap_pass(x, rest, signs);
        assert forall|a: int, b: int|
            0 <= a < rest.len() && 0 <= b < rest.len() && a != b implies {
            &&& (#[trigger] rest[a]).i != (#[trigger] rest[b]).i
            &&& rest[a].i != rest[b].j
            &&& rest[a].j != rest[b].j
        } by {
            assert(rest[a] == swaps[a] && rest[b] == swaps[b]);
        }
        lemma_turned(x, rest, signs);
        let n = swaps.len() - 1;
        assert(untouched(rest, last.i as int) && untouched(rest, last.j as int)) by {
            assert forall|a: int| 0 <= a < rest.len() implies (#[trigger] rest[a]).i != last.i
                && rest[a].j != last.i && rest[a].i != last.j && rest[a].j != last.j by {
                assert(rest[a] == swaps[a] && last == swaps[n]);
                assert(swaps[a].i != swaps[n].i && swaps[n].i != swaps[a].j);
            }
        }
        assert(v[last.i as int] == x[last.i as int]);
        assert(v[last.j as int] == x[last.j as int]);
        assert forall|a: int| 0 <= a < swaps.len() implies {
            let s = #[trigger] swaps[a];
            &&& w[s.i as int] == product(signs[s.i as int], x[s.j as int])
            &&& w[s.j as int] == product(signs[s.j as int], x[s.i as int])
        } by {
            if a < n {
                assert(rest[a] == swaps[a]);
                assert(swaps[a].i != swaps[n].i && swaps[n].i != swaps[a].j);
            }
        }
        assert forall|k: int| 0 <= k < x.len() && untouched(swaps, k) implies #[trigger] w[k]
            == x[k] by {
            assert(untouched(rest, k)) by {
                assert forall|a: int| 0 <= a < rest.len() implies (#[trigger] rest[a]).i != k
                    && rest[a].j != k by {
                    assert(rest[a] == swaps[a]);
                }
            }
            assert(swaps[n] == last);
            assert(v[k] == x[k]);
        }
    }
}

/// Where the block of element `k` of `len` starts, and how many elements it has:
/// blocks of 256 from the start, blocks of 64 for what is left.
pub open spec fn block_of(len: nat, k: int) -> (int, nat) {
    if k < len / 256 * 256 {
        (k / 256 * 256, 256)
    } else {
        (k / 64 * 64, 64)
    }
}

/// The blocks of what is left after the first one.
proof fn lemma_blocks(n: nat, k: int)
    requires
        n % 64 == 0,
        0 <= k < n,
    ensures
        ({
            let (s, b) = block_of(n, k);
            &&& 0 <= s <= k < s + b <= n
            &&& b == 256 || b == 64
            &&& n >= 256 && k < 256 ==> s == 0 && b == 256
            &&& n >= 256 && k >= 256 ==> block_of((n - 256) as nat, k - 256) == (s - 256, b)
            &&& n < 256 ==> b == 64
            &&& n < 256 && k < 64 ==> s == 0
            &&& n < 256 && k >= 64 ==> block_of((n - 64) as nat, k - 64) == (s - 64, b)
        }),
{
    let (p, q) = (n / 256, k / 256);
    assert(n == 256 * p + n % 256 && k == 256 * q + k % 256);
    assert(k == 64 * (k / 64) + k % 64 && n == 64 * (n / 64));
    if n >= 256 {
        assert((n - 256) / 256 == p - 1);
    }
    if k >= 256 {
        assert((k - 256) / 256 == q - 1 && (k - 256) / 64 == k / 64 - 4);
    }
    if k >= 64 {
        assert((k - 64) / 64 == k / 64 - 1);
    }
}

/// The normalized transform of one block of 64 or 256 elements in closed form.
pub proof fn law_block_transformed(head: Seq<real>, levels: nat, k: nat)
    requires
        levels == 3 && head.len() == 64 || levels == 4 && head.len() == 256,
        k < head.len(),
    ensures
        normalized(head, levels).len() == head.len(),
        levels == 4 ==> 16real * normalized(head, levels)[k as int] == signed_sum(head, k, 256),
        levels == 3 ==> 8real * normalized(head, levels)[k as int] == signed_sum(head, k, 64),
{
    lemma2_to64();
    reveal(normalized);
    law_transform_closed(head, real::half_pow(levels), 2 * levels, k);
    lemma_normalizing(signed_sum(head, k, head.len()));
}

/// The block transform in closed form: each element of a block of 256 is a
/// sixteenth of the sum of the block, and of a block of 64 an eighth, with the
/// signs of a Walsh-Hadamard matrix.
pub proof fn law_blocks_transformed(w: Seq<real>, k: int)
    requires
        w.len() % 64 == 0,
        0 <= k < w.len(),
    ensures
        blockwise(w).len() == w.len(),
        ({
            let (s, b) = block_of(w.len(), k);
            let sum = signed_sum(w.subrange(s, s + b), (k - s) as nat, b);
            &&& 0 <= s <= k < s + b <= w.len()
            &&& b == 256 ==> 16real * blockwise(w)[k] == sum
            &&& b == 64 ==> 8real * blockwise(w)[k] == sum
        }),
    decreases w.len(),
{
    lemma_blockwise_len(w);
    let n = w.len();
    let (s, b) = block_of(n, k);
    lemma_blocks(n, k);
    if n >= 256 {
        let (head, tail) = (w.subrange(0, 256), w.subrange(256, n as int));
        lemma_blockwise_len(tail);
        law_block_transformed(head, 4, 0);
        if k < 256 {
            law_block_transformed(head, 4, k as nat);
            assert(w.subrange(s, s + b) =~= head);
        } else {
            law_blocks_transformed(tail, k - 256);
            let (t, c) = block_of(tail.len(), k - 256);
            assert(tail.subrange(t, t + c) =~= w.subrange(s, s + b));
            assert(blockwise(w)[k] == blockwise(tail)[k - 256]);
        }
    } else {
        let (head, tail) = (w.subrange(0, 64), w.subrange(64, n as int));
        lemma_blockwise_len(tail);
        law_block_transformed(head, 3, 0);
        if k < 64 {
            law_block_transformed(head, 3, k as nat);
            assert(w.subrange(s, s + b) =~= head);
        } else {
            law_blocks_transformed(tail, k - 64);
            let (t, c) = block_of(tail.len(), k - 64);
            assert(tail.subrange(t, t + c) =~= w.subrange(s, s + b));
            assert(blockwise(w)[k] == blockwise(tail)[k - 64]);
        }
    }
}

/// A rotation without rounds only cuts or zero-pads.
pub proof fn law_no_rounds<A: Arithmetic>(m: RotationModel<A>, x: Seq<A>)
    requires
        m.rounds == 0,
    ensures
        m.rotated(x).len() == m.dim,
        forall|k: int| 0 <= k < m.dim && k < x.len() ==> #[trigger] m.rotated(x)[k] == x[k],
        forall|k: int| x.len() <= k < m.dim ==> #[trigger] m.rotated(x)[k] == A::of_nat(0),
        m.unrotated(x) == x,
{
}

/// Where swaps use every index below `n` exactly once, they are disjoint and
/// leave no element in its place.
pub proof fn law_matching_turns(swaps: Seq<Swap>, n: nat)
    requires
        matching(swaps, n),
        n <= u32::MAX,
    ensures
        disjoint(swaps),
        forall|k: int| 0 <= k < n ==> !(#[trigger] untouched(swaps, k)),
{
    assert forall|k: int| 0 <= k < n implies !(#[trigger] untouched(swaps, k)) by {
        assert(touches(swaps, k as u32));
    }
    assert forall|a: int, b: int|
        0 <= a < swaps.len() && 0 <= b < swaps.len() && a != b implies {
        &&& (#[trigger] swaps[a]).i != (#[trigger] swaps[b]).i
        &&& swaps[a].i != swaps[b].j
        &&& swaps[a].j != swaps[b].j
    } by {
        if a < b {
            assert(swaps[a].i < swaps[b].i);
        } else {
            assert(swaps[b].i < swaps[a].i);
        }
    }
}

/// The same rotation with another output dimension.
pub open spec fn with_dimension<A>(m: RotationModel<A>, dim: nat) -> RotationModel<A> {
    RotationModel { dim, rounds: m.rounds, swaps: m.swaps, signs: m.signs }
}

/// Undoing rounds does not depend on the output dimension.
pub proof fn lemma_same_backward<A: Arithmetic>(
    m: RotationModel<A>,
    a: RotationModel<A>,
    x: Seq<A>,
    rounds: nat,
)
    requires
        a.swaps == m.swaps,
        a.signs == m.signs,
    ensures
        a.backward(x, rounds) == m.backward(x, rounds),
    decreases rounds,
{
    if rounds > 0 {
        let r = rounds - 1;
        let y = unswap_pass(blockwise(x), m.swaps[r], m.signs[r]);
        lemma_same_backward(m, a, y, r as nat);
    }
}

/// Rotating back undoes a rotation of vectors of any length that it applies to.
pub proof fn law_unrotated_any_length(m: RotationModel<real>, y: Seq<real>)
    requires
        signed_rotation(m, y.len()),
    ensures
        m.unrotated(y).len() == y.len(),
        with_dimension(m, y.len()).rotated(m.unrotated(y)) == y,
{
    let a = with_dimension(m, y.len());
    assert(signed_rotation(a, y.len())) by {
        assert forall|r: int, k: int| 0 <= r < a.rounds && 0 <= k < a.swaps[r].len() implies ({
            let s = #[trigger] a.swaps[r][k];
            &&& s.i < y.len() && s.i < a.signs[r].len()
            &&& s.j < y.len() && s.j < a.signs[r].len()
        }) by {
            assert(m.swaps[r][k] == a.swaps[r][k]);
        }
        assert forall|r: int, k: int|
            0 <= r < a.rounds && 0 <= k < a.signs[r].len() implies unit_sign(
            #[trigger] a.signs[r][k],
        ) by {
            assert(unit_sign(m.signs[r][k]));
        }
    }
    law_rotation_undone(a, y, y);
    law_unrotated_dimension(m, y);
    lemma_same_backward(m, a, y, m.rounds);
}

/// The same rotation with fewer rounds.
pub open spec fn with_rounds<A>(m: RotationModel<A>, rounds: nat) -> RotationModel<A> {
    RotationModel { dim: m.dim, rounds, swaps: m.swaps, signs: m.signs }
}

/// `v` is element `k` of the block transform of `w`.
pub open spec fn block_sum(w: Seq<real>, k: int, v: real) -> bool {
    let (s, b) = block_of(w.len(), k);
    let sum = signed_sum(w.subrange(s, s + b), (k - s) as nat, b);
    if b == 256 {
        16real * v == sum
    } else {
        8real * v == sum
    }
}

/// `z` is the block transform of `w`.
pub open spec fn block_sums(w: Seq<real>, z: Seq<real>) -> bool {
    &&& z.len() == w.len()
    &&& forall|k: int| 0 <= k < w.len() ==> block_sum(w, k, #[trigger] z[k])
}

/// The first rounds do not depend on how many follow.
proof fn lemma_same_rounds(
    m: RotationModel<real>,
    a: RotationModel<real>,
    x: Seq<real>,
    rounds: nat,
)
    requires
        a.swaps == m.swaps,
        a.signs == m.signs,
    ensures
        a.forward(x, rounds) == m.forward(x, rounds),
    decreases rounds,
{
    if rounds > 0 {
        lemma_same_rounds(m, a, x, (rounds - 1) as nat);
    }
}

/// What round `r` adds to a rotation, where its swaps are disjoint: the elements
/// of each swap are exchanged and multiplied by their signs, then each element
/// of a block of 256 becomes a sixteenth of the sum of the block, and of a block
/// of 64 an eighth, with the signs of a Walsh-Hadamard matrix.
pub proof fn law_rotation_round(m: RotationModel<real>, x: Seq<real>, r: nat)
    requires
        m.applies_to(m.dim),
        r < m.rounds,
        disjoint(m.swaps[r as int]),
    ensures
        exists|w: Seq<real>| #[trigger]
            turned(
                with_rounds(m, r).rotated(x),
                w,
                m.swaps[r as int],
                m.signs[r as int],
            ) && w.len() == m.dim && block_sums(w, with_rounds(m, r + 1).rotated(x)),
{
    let (a, b) = (with_rounds(m, r), with_rounds(m, r + 1));
    let p = padded(x, m.dim);
    lemma_same_rounds(m, a, p, r);
    lemma_same_rounds(m, b, p, r + 1);
    lemma_forward_len(m, p, r);
    let before = m.forward(p, r);
    let swaps = m.swaps[r as int];
    assert forall|k: int| 0 <= k < swaps.len() implies (#[trigger] swaps[k]).i < m.dim
        && swaps[k].j < m.dim by {
        assert(m.swaps[r as int][k] == swaps[k]);
    }
    let w = swap_pass(before, swaps, m.signs[r as int]);
    lemma_turned(before, swaps, m.signs[r as int]);
    assert forall|k: int| 0 <= k < w.len() implies block_sum(w, k, #[trigger] blockwise(w)[k]) by {
        law_blocks_transformed(w, k);
    }
    lemma_blockwise_len(w);
    assert(block_sums(w, blockwise(w)));
    assert(a.rotated(x) == before);
    assert(b.rotated(x) == m.forward(p, r + 1));
    assert(m.forward(p, r + 1) == blockwise(w));
    assert(turned(a.rotated(x), w, swaps, m.signs[r as int]));
}

/// `w` is `x` with the two elements of each swap exchanged, each times the sign
/// of its old place; other elements stay.
pub open spec fn unturned(
    x: Seq<real>,
    w: Seq<real>,
    swaps: Seq<Swap>,
    signs: Seq<real>,
) -> bool {
    &&& w.len() == x.len()
    &&& forall|a: int|
        0 <= a < swaps.len() ==> {
            let s = #[trigger] swaps[a];
            &&& w[s.i as int] == product(signs[s.j as int], x[s.j as int])
            &&& w[s.j as int] == product(signs[s.i as int], x[s.i as int])
        }
    &&& forall|k: int| 0 <= k < x.len() && untouched(swaps, k) ==> #[trigger] w[k] == x[k]
}

/// Disjoint swaps undone, one after the other.
proof fn lemma_unturned(x: Seq<real>, swaps: Seq<Swap>, signs: Seq<real>)
    requires
        disjoint(swaps),
        forall|a: int|
            0 <= a < swaps.len() ==> (#[trigger] swaps[a]).i < x.len() && swaps[a].j < x.len(),
    ensures
        unturned(x, unswap_pass(x, swaps, signs), swaps, signs),
    decreases swaps.len(),
{
    let w = unswap_pass(x, swaps, signs);
    if swaps.len() > 0 {
        let rest = swaps.drop_last();
        let last = swaps.last();
        let n = swaps.len() - 1;
        let v = unswap_step(x, last, signs);
        assert forall|a: int, b: int|
            0 <= a < rest.len() && 0 <= b < rest.len() && a != b implies {
            &&& (#[trigger] rest[a]).i != (#[trigger] rest[b]).i
            &&& rest[a].i != rest[b].j
            &&& rest[a].j != rest[b].j
        } by {
            assert(rest[a] == swaps[a] && rest[b] == swaps[b]);
        }
        lemma_unturned(v, rest, signs);
        assert forall|a: int| 0 <= a < rest.len() implies (#[trigger] rest[a]).i != last.i
            && rest[a].j != last.i && rest[a].i != last.j && rest[a].j != last.j by {
            assert(rest[a] == swaps[a] && last == swaps[n]);
            assert(swaps[a].i != swaps[n].i && swaps[n].i != swaps[a].j);
        }
        assert(untouched(rest, last.i as int) && untouched(rest, last.j as int));
        assert(w[last.i as int] == v[last.i as int]);
        assert(w[last.j as int] == v[last.j as int]);
        assert forall|a: int| 0 <= a < swaps.len() implies {
            let s = #[trigger] swaps[a];
            &&& w[s.i as int] == product(signs[s.j as int], x[s.j as int])
            &&& w[s.j as int] == product(signs[s.i as int], x[s.i as int])
        } by {
            if a < n {
                let s = rest[a];
                assert(s == swaps[a]);
                assert(v[s.i as int] == x[s.i as int] && v[s.j as int] == x[s.j as int]);
            }
        }
        assert forall|k: int| 0 <= k < x.len() && untouched(swaps, k) implies #[trigger] w[k]
            == x[k] by {
            assert(untouched(rest, k)) by {
                assert forall|a: int| 0 <= a < rest.len() implies (#[trigger] rest[a]).i != k
                    && rest[a].j != k by {
                    assert(rest[a] == swaps[a]);
                }
            }
            assert(swaps[n] == last);
            assert(v[k] == x[k]);
        }
    }
}

/// What rotating back does with round `r`, where its swaps are disjoint: the
/// blocks are transformed first, as they are in a rotation, then the elements
/// of each swap are multiplied by their signs and exchanged; what is left are
/// the rounds before.
pub proof fn law_unrotation_round(m: RotationModel<real>, y: Seq<real>, r: nat)
    requires
        m.applies_to(y.len()),
        r < m.rounds,
        disjoint(m.swaps[r as int]),
    ensures
        exists|z: Seq<real>, w: Seq<real>|
            #![trigger block_sums(y, z), unturned(z, w, m.swaps[r as int], m.signs[r as int])]
            {
                &&& block_sums(y, z)
                &&& unturned(z, w, m.swaps[r as int], m.signs[r as int])
                &&& with_rounds(m, r + 1).unrotated(y) == with_rounds(m, r).unrotated(w)
            },
{
    let (a, b) = (with_rounds(m, r), with_rounds(m, r + 1));
    let z = blockwise(y);
    let swaps = m.swaps[r as int];
    let signs = m.signs[r as int];
    let w = unswap_pass(z, swaps, signs);
    lemma_blockwise_len(y);
    assert forall|k: int| 0 <= k < y.len() implies block_sum(y, k, #[trigger] z[k]) by {
        law_blocks_transformed(y, k);
    }
    assert(block_sums(y, z));
    assert forall|k: int| 0 <= k < swaps.len() implies (#[trigger] swaps[k]).i < z.len()
        && swaps[k].j < z.len() by {
        assert(m.swaps[r as int][k] == swaps[k]);
    }
    lemma_unturned(z, swaps, signs);
    lemma_same_backward(a, b, w, r);
    assert(b.unrotated(y) == b.backward(w, r));
    assert(unturned(z, w, m.swaps[r as int], m.signs[r as int]));
}

/// All indices of the swaps are below `n`.
pub open spec fn indices_below(swaps: Seq<Swap>, n: nat) -> bool {
    forall|k: int| 0 <= k < swaps.len() ==> (#[trigger] swaps[k]).i < n && swaps[k].j < n
}

/// Which vectors a rotation applies to: it has swaps and signs for all of its
/// rounds, with rounds the length is a multiple of 64, and every swap is of
/// indices below the length that have signs.
pub proof fn law_applies<A: Arithmetic>(m: RotationModel<A>, len: nat)
    ensures
        m.applies_to(len) <==> {
            &&& m.swaps.len() >= m.rounds && m.signs.len() >= m.rounds
            &&& m.rounds == 0 || len % 64 == 0
            &&& forall|r: int|
                0 <= r < m.rounds ==> indices_below(
                    #[trigger] m.swaps[r],
                    if len < m.signs[r].len() {
                        len
                    } else {
                        m.signs[r].len()
                    },
                )
        },
{
    if m.applies_to(len) {
        assert forall|r: int| 0 <= r < m.rounds implies indices_below(
            #[trigger] m.swaps[r],
            if len < m.signs[r].len() {
                len
            } else {
                m.signs[r].len()
            },
        ) by {
            assert forall|k: int| 0 <= k < m.swaps[r].len() implies (#[trigger] m.swaps[r][k]).i
                < len && m.swaps[r][k].i < m.signs[r].len() && m.swaps[r][k].j < len
                && m.swaps[r][k].j < m.signs[r].len() by {}
        }
    } else if m.swaps.len() >= m.rounds && m.signs.len() >= m.rounds && (m.rounds == 0 || len % 64
        == 0) {
        let (r, k) = choose|r: int, k: int|
            0 <= r < m.rounds && 0 <= k < m.swaps[r].len() && !({
                let s = #[trigger] m.swaps[r][k];
                &&& s.i < len && s.i < m.signs[r].len()
                &&& s.j < len && s.j < m.signs[r].len()
            });
        assert(m.swaps[r][k] == m.swaps[r][k]);
    }
}

} // verus!
