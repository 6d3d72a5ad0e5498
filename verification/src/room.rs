//! Bootstrap rooms: the number by which a prefill rank and a decode rank
//! find each other for one request.
//!
//! Each request moves a 32-bit counter on by the stride, the number of ranks
//! of a prefill worker, and takes the counter's old value plus its prefill
//! rank as its room. The counter wraps round.

use vstd::prelude::*;

verus! {

/// The number of values that a room counter has.
pub const ROOMS: u64 = 0x1_0000_0000;

/// `x` brought into the counter's range.
pub open spec fn wrap(x: int) -> u32 {
    (x % (ROOMS as int)) as u32
}

/// The counter after `n` requests, counted from `base`.
pub open spec fn counter_after(base: u32, stride: usize, n: nat) -> u32 {
    wrap(base + n * stride)
}

/// The room of request number `n`, counted from zero, on prefill rank `rank`.
pub open spec fn issued_room(base: u32, stride: usize, n: nat, rank: usize) -> u32 {
    wrap(base + n * stride + rank)
}

/// Moves `counter` on by `stride` and gives the room for `rank`.
pub fn take_room(counter: &mut u32, stride: usize, rank: usize) -> (room: u32)
    ensures
        room == wrap(*old(counter) + rank),
        *final(counter) == wrap(*old(counter) + stride),
{
    let base: u64 = *counter as u64;
    let step: u64 = stride as u64 % ROOMS;
    let offset: u64 = rank as u64 % ROOMS;
    *counter = ((base + step) % ROOMS) as u32;
    ((base + offset) % ROOMS) as u32
}

/// What `take_room` does on the request that follows `n` others: it leaves
/// the counter where `n + 1` requests leave it, and gives the room of request
/// number `n`.
pub proof fn room_of_request(base: u32, stride: usize, n: nat, rank: usize)
    ensures
        wrap(counter_after(base, stride, n) + stride) == counter_after(base, stride, n + 1),
        wrap(counter_after(base, stride, n) + rank) == issued_room(base, stride, n, rank),
{
    let rooms = ROOMS as int;
    let before = base + n * stride;
    assert(base + (n + 1) * stride == before + stride) by (nonlinear_arith)
        requires
            before == base + n * stride,
    ;
    assert((before % rooms + stride) % rooms == (before + stride) % rooms) by {
        vstd::arithmetic::div_mod::lemma_add_mod_noop(before, stride as int, rooms);
        vstd::arithmetic::div_mod::lemma_add_mod_noop(before % rooms, stride as int, rooms);
        vstd::arithmetic::div_mod::lemma_mod_twice(before, rooms);
    }
    assert((before % rooms + rank) % rooms == (before + rank) % rooms) by {
        vstd::arithmetic::div_mod::lemma_add_mod_noop(before, rank as int, rooms);
        vstd::arithmetic::div_mod::lemma_add_mod_noop(before % rooms, rank as int, rooms);
        vstd::arithmetic::div_mod::lemma_mod_twice(before, rooms);
    }
}

/// Two numbers less than the counter's range apart wrap to different rooms.
proof fn lemma_wrap_apart(a: int, b: int)
    requires
        0 < b - a < ROOMS,
    ensures
        wrap(a) != wrap(b),
{
    let rooms = ROOMS as int;
    if a % rooms == b % rooms {
        vstd::arithmetic::div_mod::lemma_fundamental_div_mod(a, rooms);
        vstd::arithmetic::div_mod::lemma_fundamental_div_mod(b, rooms);
        let qa = a / rooms;
        let qb = b / rooms;
        assert(b - a == rooms * (qb - qa)) by (nonlinear_arith)
            requires
                a == rooms * qa + a % rooms,
                b == rooms * qb + b % rooms,
                a % rooms == b % rooms,
        ;
        assert(false) by (nonlinear_arith)
            requires
                0 < b - a < rooms,
                b - a == rooms * (qb - qa),
                rooms == 0x1_0000_0000,
        ;
    }
}

/// Two requests on one prefill rank get different rooms as long as the
/// counter has not come round to where it was: request `i` and a later
/// request `j` between which the counter moved on by less than its range.
pub proof fn rooms_differ_on_one_rank(base: u32, stride: usize, i: nat, j: nat, rank: usize)
    requires
        i < j,
        0 < (j - i) * stride < ROOMS,
    ensures
        issued_room(base, stride, i, rank) != issued_room(base, stride, j, rank),
{
    let a = base + i * stride + rank;
    let b = base + j * stride + rank;
    assert(b - a == (j - i) * stride) by (nonlinear_arith)
        requires
            a == base + i * stride + rank,
            b == base + j * stride + rank,
    ;
    lemma_wrap_apart(a, b);
}

/// Two requests get different rooms, whatever their ranks, as long as the
/// counter has not gone once round between them: request `i` and a later
/// request `j`, each on a rank below the stride, where the requests from `i`
/// to `j` span no more than the counter's range.
pub proof fn rooms_differ(
    base: u32,
    stride: usize,
    i: nat,
    rank_i: usize,
    j: nat,
    rank_j: usize,
)
    requires
        i < j,
        rank_i < stride,
        rank_j < stride,
        (j - i + 1) * stride <= ROOMS,
    ensures
        issued_room(base, stride, i, rank_i) != issued_room(base, stride, j, rank_j),
{
    let a = base + i * stride + rank_i;
    let b = base + j * stride + rank_j;
    assert(b - a == (j - i) * stride + rank_j - rank_i) by (nonlinear_arith)
        requires
            a == base + i * stride + rank_i,
            b == base + j * stride + rank_j,
    ;
    assert((j - i + 1) * stride == (j - i) * stride + stride) by (nonlinear_arith);
    assert((j - i) * stride >= stride) by (nonlinear_arith)
        requires
            j - i >= 1,
            stride >= 0,
    ;
    lemma_wrap_apart(a, b);
}

} // verus!
