//! Numbers: a table of powers, the Collatz step and a bounded search along
//! it, and a small random step.
use rand::Rng;
use std::collections::BTreeSet;
use vstd::arithmetic::div_mod::lemma_small_mod;
use vstd::arithmetic::power::{lemma0_pow, lemma_pow1, lemma_pow_increases, pow};
use vstd::prelude::*;
use vstd::string::*;

verus! {

/// One more factor: `x^(e + 1)` is `x^e * x`.
proof fn lemma_pow_next(x: int, e: nat)
    ensures
        pow(x, e + 1) == pow(x, e) * x,
{
    reveal(pow);
    assert(pow(x, e + 1) == x * pow(x, e));
    assert(x * pow(x, e) == pow(x, e) * x) by (nonlinear_arith);
}

/// Whether `x^exponent` fits in a `u64`.
pub fn power_fits(x: u64, exponent: usize) -> (fits: bool)
    ensures
        fits == (pow(x as int, exponent as nat) <= u64::MAX),
{
    if exponent == 0 {
        proof {
            reveal(pow);
        }
        return true;
    }
    if x == 0 {
        proof {
            lemma0_pow(exponent as nat);
        }
        return true;
    }
    let mut val: u64 = x;
    let mut e: usize = 1;
    proof {
        lemma_pow1(x as int);
    }
    while e < exponent
        invariant
            1 <= e <= exponent,
            x > 0,
            val == pow(x as int, e as nat),
        decreases exponent - e,
    {
        proof {
            lemma_pow_next(x as int, e as nat);
        }
        match val.checked_mul(x) {
            Some(next) => {
                val = next;
            },
            None => {
                proof {
                    lemma_pow_increases(x as nat, (e + 1) as nat, exponent as nat);
                }
                return false;
            },
        }
        e = e + 1;
    }
    true
}

/// The powers `x^1` to `x^LEN`.
pub fn pow_table<const LEN: usize>(x: u64) -> (table: [u64; LEN])
    requires
        pow(x as int, LEN as nat) <= u64::MAX,
    ensures
        forall|i: int| 0 <= i < LEN ==> table[i] == pow(x as int, (i + 1) as nat),
{
    let mut arr = [x; LEN];
    let mut val = x;
    let mut i: usize = 0;
    proof {
        lemma_pow1(x as int);
    }
    while i < LEN
        invariant
            i <= LEN,
            pow(x as int, LEN as nat) <= u64::MAX,
            forall|k: int| 0 <= k < i ==> arr[k] == pow(x as int, (k + 1) as nat),
            i < LEN ==> val == pow(x as int, (i + 1) as nat),
        decreases LEN - i,
    {
        arr[i] = val;
        i = i + 1;
        if i < LEN {
            proof {
                lemma_pow_next(x as int, i as nat);
                if x > 0 {
                    lemma_pow_increases(x as nat, (i + 1) as nat, LEN as nat);
                } else {
                    assert(val * x == 0) by (nonlinear_arith)
                        requires
                            x == 0,
                    ;
                    lemma0_pow((i + 1) as nat);
                }
            }
            val = val * x;
        }
    }
    arr
}

/// The Collatz step: half of an even number, three times an odd number and
/// one.
pub open spec fn collatz_step(x: nat) -> nat {
    if x % 2 == 1 {
        3 * x + 1
    } else {
        x / 2
    }
}

/// Whether the first `steps` Collatz steps from `x`, or those up to the
/// first that gives one, all stay within a `u64`.
pub open spec fn collatz_in_range(x: nat, steps: nat) -> bool
    decreases steps,
{
    steps == 0 || (collatz_step(x) <= u64::MAX && (collatz_step(x) == 1 || collatz_in_range(
        collatz_step(x),
        (steps - 1) as nat,
    )))
}

/// Whether one of the first `steps` Collatz steps from `x` gives one.
pub open spec fn collatz_reaches_one(x: nat, steps: nat) -> bool
    decreases steps,
{
    steps > 0 && (collatz_step(x) == 1 || collatz_reaches_one(
        collatz_step(x),
        (steps - 1) as nat,
    ))
}

/// One Collatz step.
pub fn collatz(x: u64) -> (next: u64)
    requires
        collatz_step(x as nat) <= u64::MAX,
    ensures
        next == collatz_step(x as nat),
{
    if x % 2 == 1 {
        return 3 * x + 1;
    }
    x / 2
}

/// Whether one of the first `limit + 1` Collatz steps from `x` gives one.
pub fn is_collatz(x: u64, limit: u32) -> (found: bool)
    requires
        collatz_in_range(x as nat, limit as nat + 1),
    ensures
        found == collatz_reaches_one(x as nat, limit as nat + 1),
{
    let mut current = x;
    let mut left: u64 = limit as u64 + 1;
    while left > 0
        invariant
            left <= limit + 1,
            collatz_in_range(current as nat, left as nat),
            collatz_reaches_one(x as nat, limit as nat + 1) == collatz_reaches_one(
                current as nat,
                left as nat,
            ),
        decreases left,
    {
        let ghost before = current;
        current = collatz(current);
        assert(collatz_reaches_one(before as nat, left as nat) == (current == 1
            || collatz_reaches_one(current as nat, (left - 1) as nat)));
        if current == 1 {
            return true;
        }
        left = left - 1;
    }
    false
}

/// Whether [`is_collatz`] can be asked about `x` and `limit`: whether the
/// steps it takes stay within a `u64`.
pub fn collatz_stays_in_range(x: u64, limit: u32) -> (safe: bool)
    ensures
        safe == collatz_in_range(x as nat, limit as nat + 1),
{
    let mut current = x;
    let mut left: u64 = limit as u64 + 1;
    while left > 0
        invariant
            left <= limit + 1,
            collatz_in_range(x as nat, limit as nat + 1) == collatz_in_range(
                current as nat,
                left as nat,
            ),
        decreases left,
    {
        let ghost before = current;
        assert(collatz_in_range(before as nat, left as nat) == (collatz_step(before as nat)
            <= u64::MAX && (collatz_step(before as nat) == 1 || collatz_in_range(
            collatz_step(before as nat),
            (left - 1) as nat,
        ))));
        if current % 2 == 1 {
            if current > (u64::MAX - 1) / 3 {
                return false;
            }
            current = 3 * current + 1;
        } else {
            current = current / 2;
        }
        if current == 1 {
            return true;
        }
        left = left - 1;
    }
    true
}

/// A number from zero to five, drawn by `gen_range` of rand on the
/// thread-local generator. The contract claims only the range, which holds of
/// every draw.
#[verifier::external_body]
fn random_step() -> (step: u64)
    ensures
        step <= 5,
{
    rand::thread_rng().gen_range(0..=5)
}

/// `number` moved up by a random step of at most five, unless that leaves
/// the range of a `u64`.
pub fn perturbed(number: u64) -> (moved: Option<u64>)
    ensures
        match moved {
            Some(m) => number <= m <= number + 5,
            None => number + 5 > u64::MAX,
        },
{
    shifted(number, random_step())
}

/// `number` moved up by `step`, unless that leaves the range of a `u64`.
pub fn shifted(number: u64, step: u64) -> (moved: Option<u64>)
    ensures
        moved == if number + step <= u64::MAX {
            Some((number + step) as u64)
        } else {
            None
        },
{
    number.checked_add(step)
}

/// The sum of the elements of `s`.
pub open spec fn sum_of(s: Seq<u64>) -> int
    decreases s.len(),
{
    if s.len() == 0 {
        0
    } else {
        sum_of(s.drop_last()) + s.last()
    }
}

/// The sum is at most as many times the largest `u64` as there are elements.
proof fn lemma_sum_bound(s: Seq<u64>)
    ensures
        0 <= sum_of(s) <= s.len() * u64::MAX,
    decreases s.len(),
{
    if s.len() > 0 {
        lemma_sum_bound(s.drop_last());
        assert(s.len() * u64::MAX == (s.len() - 1) * u64::MAX + u64::MAX) by (nonlinear_arith);
    }
}

/// The sum of the values, in a type wide enough for any ten of them.
pub fn total(values: &[u64; 10]) -> (sum: u128)
    ensures
        sum == sum_of(values@),
{
    let mut sum: u128 = 0;
    let mut i: usize = 0;
    assert(values@.take(0) =~= Seq::<u64>::empty());
    while i < 10
        invariant
            i <= 10,
            values@.len() == 10,
            sum == sum_of(values@.take(i as int)),
        decreases 10 - i,
    {
        proof {
            lemma_sum_bound(values@.take(i as int));
            assert(values@.take(i + 1).drop_last() =~= values@.take(i as int));
        }
        sum = sum + values[i] as u128;
        i = i + 1;
    }
    assert(values@.take(10) =~= values@);
    sum
}

/// Whether the trial that starts at `i` and goes up in steps of six passes
/// `value`: neither a trial number nor the number two above it divides
/// `value`, up to the first trial number whose successor lies above `root`.
pub open spec fn passes_trial(value: nat, root: nat, i: nat) -> bool
    decreases root + 6 - i,
{
    if value % i == 0 || value % (i + 2) == 0 {
        false
    } else if i + 6 > root {
        true
    } else {
        passes_trial(value, root, i + 6)
    }
}

/// Whether the search counts `value` as a prime, given `root` as the whole
/// part of its square root: two and three count; beyond them a number
/// counts that neither two nor three divides and that passes the trial from
/// five. Five and seven divide themselves and so do not count.
pub open spec fn counts_as_prime(value: nat, root: nat) -> bool {
    value == 2 || value == 3 || (value > 3 && value % 2 != 0 && value % 3 != 0 && passes_trial(
        value,
        root,
        5,
    ))
}

/// Whether the search counts `value` as a prime, given `root`.
fn counted(value: u64, root: u64) -> (answer: bool)
    ensures
        answer == counts_as_prime(value as nat, root as nat),
{
    if value <= 1 {
        return false;
    }
    if value == 2 || value == 3 {
        return true;
    }
    if value % 2 == 0 || value % 3 == 0 {
        return false;
    }
    let mut i: u64 = 5;
    loop
        invariant
            value > 3,
            value % 2 != 0,
            value % 3 != 0,
            i >= 5,
            passes_trial(value as nat, root as nat, 5) == passes_trial(
                value as nat,
                root as nat,
                i as nat,
            ),
        decreases root + 6 - i,
    {
        if value % i == 0 {
            return false;
        }
        match i.checked_add(2) {
            Some(above) => {
                if value % above == 0 {
                    return false;
                }
            },
            None => {
                proof {
                    lemma_small_mod(value as nat, (i + 2) as nat);
                }
            },
        }
        assert(passes_trial(value as nat, root as nat, i as nat) == (i + 6 > root || passes_trial(
            value as nat,
            root as nat,
            (i + 6) as nat,
        )));
        match i.checked_add(6) {
            Some(next) => {
                if next > root {
                    return true;
                }
                i = next;
            },
            None => {
                return true;
            },
        }
    }
}

/// Whether the search counts one of the values as a prime, each value
/// taken with the root at its position.
pub fn found_prime(values: &[u64; 10], roots: &[u64; 10]) -> (found: bool)
    ensures
        found == exists|k: int| 0 <= k < 10 && counts_as_prime(#[trigger] values[k] as nat, roots[k] as nat),
{
    let mut k: usize = 0;
    while k < 10
        invariant
            k <= 10,
            forall|j: int| 0 <= j < k ==> !counts_as_prime(#[trigger] values[j] as nat, roots[j] as nat),
        decreases 10 - k,
    {
        if counted(values[k], roots[k]) {
            return true;
        }
        k = k + 1;
    }
    false
}

/// What a search reports.
pub fn description(found: bool) -> (text: &'static str)
    ensures
        text@ == if found {
            "Found prime"@
        } else {
            "Not found prime"@
        },
{
    if found {
        "Found prime"
    } else {
        "Not found prime"
    }
}

/// The text of a flag.
pub open spec fn flag_text(flag: bool) -> Seq<char> {
    if flag {
        "true"@
    } else {
        "false"@
    }
}

/// The texts of the flags, with a comma between neighbours.
pub open spec fn flags_text(flags: Seq<bool>) -> Seq<char>
    decreases flags.len(),
{
    if flags.len() == 0 {
        Seq::empty()
    } else if flags.len() == 1 {
        flag_text(flags[0])
    } else {
        flags_text(flags.drop_last()) + ","@ + flag_text(flags.last())
    }
}

/// The flags as one line of text, with a comma between neighbours.
pub fn flags_line(flags: &[bool]) -> (text: String)
    ensures
        text@ == flags_text(flags@),
{
    let mut text = String::new();
    let mut i: usize = 0;
    assert(flags@.take(0) =~= Seq::<bool>::empty());
    while i < flags.len()
        invariant
            i <= flags@.len(),
            text@ == flags_text(flags@.take(i as int)),
        decreases flags@.len() - i,
    {
        proof {
            assert(flags@.take(i + 1).drop_last() =~= flags@.take(i as int));
        }
        if i > 0 {
            text.append(",");
        }
        text.append(if flags[i] {
            "true"
        } else {
            "false"
        });
        i = i + 1;
        assert(text@ =~= flags_text(flags@.take(i as int)));
    }
    assert(flags@.take(i as int) =~= flags@);
    text
}

/// Whether trial division of `n` by the numbers from one to below the whole
/// part of its square root finds `d`: as a trial number that divides `n`,
/// or as what such a trial number leaves of `n`.
pub open spec fn found_by_trial(n: nat, d: nat) -> bool {
    exists|i: nat| is_trial(n, i) && (d == i || d == n / i)
}

/// Whether `i` is a trial number for `n` that divides it: at least one,
/// below the whole part of the square root of `n`, and a divisor of `n`.
pub open spec fn is_trial(n: nat, i: nat) -> bool {
    1 <= i && (i + 1) * (i + 1) <= n && n % i == 0
}

/// The square of the number after `i`.
fn next_square(i: u64) -> (square: u64)
    requires
        i <= 0x1_0000,
    ensures
        square == (i + 1) * (i + 1),
{
    assert((i + 1) * (i + 1) <= 0x1_0001 * 0x1_0001) by (nonlinear_arith)
        requires
            0 <= i <= 0x1_0000,
    ;
    (i + 1) * (i + 1)
}

/// Adds `d` to `tree`.
fn keep(tree: &mut BTreeSet<u32>, d: u32)
    ensures
        final(tree)@ == old(tree)@.insert(d),
{
    broadcast use vstd::laws_cmp::group_laws_cmp;

    tree.insert(d);
}

/// The divisors of `n` that trial division below the whole part of its
/// square root finds, each with what it leaves of `n`. The square root
/// itself is no trial number, so for a square it and its like are left out.
pub fn divisors(n: u32) -> (tree: BTreeSet<u32>)
    ensures
        forall|d: u32| tree@.contains(d) <==> found_by_trial(n as nat, d as nat),
{
    let mut tree = BTreeSet::<u32>::new();
    let wide: u64 = n as u64;
    let mut i: u64 = 1;
    while next_square(i) <= wide
        invariant
            1 <= i <= 0x1_0000,
            wide == n,
            forall|d: u32|
                tree@.contains(d) <==> exists|k: nat| k < i && is_trial(n as nat, k) && (d == k || d == n as nat / k),
        decreases 0x1_0000 - i,
    {
        assert(i < 0x1_0000) by (nonlinear_arith)
            requires
                (i + 1) * (i + 1) <= wide,
                wide <= 0xffff_ffff,
                i >= 1,
        ;
        let ghost before = tree@;
        if wide % i == 0 {
            keep(&mut tree, i as u32);
            assert(i * i < wide && i * i < 0x1_0000_0000) by (nonlinear_arith)
                requires
                    (i + 1) * (i + 1) <= wide,
                    wide <= 0xffff_ffff,
                    i >= 1,
            ;
            if i * i != wide {
                keep(&mut tree, (wide / i) as u32);
            }
        }
        proof {
            assert forall|d: u32|
                tree@.contains(d) <==> exists|k: nat| k < i + 1 && is_trial(n as nat, k) && (d == k || d == n as nat / k) by {
                if tree@.contains(d) && !before.contains(d) {
                    assert(is_trial(n as nat, i as nat));
                }
                if before.contains(d) {
                    let k = choose|k: nat| k < i && is_trial(n as nat, k) && (d == k || d == n as nat / k);
                    assert(k < i + 1 && is_trial(n as nat, k) && (d == k || d == n as nat / k));
                }
                if exists|k: nat| k < i + 1 && is_trial(n as nat, k) && (d == k || d == n as nat / k) {
                    let k = choose|k: nat| k < i + 1 && is_trial(n as nat, k) && (d == k || d == n as nat / k);
                    if k < i {
                        assert(before.contains(d));
                    }
                }
            }
        }
        i = i + 1;
    }
    proof {
        assert forall|d: u32| tree@.contains(d) <==> found_by_trial(n as nat, d as nat) by {
            if found_by_trial(n as nat, d as nat) {
                let k = choose|k: nat| is_trial(n as nat, k) && (d == k || d == n as nat / k);
                assert(k < i) by (nonlinear_arith)
                    requires
                        (k + 1) * (k + 1) <= n,
                        (i + 1) * (i + 1) > n,
                        i >= 1,
                ;
            }
            if tree@.contains(d) {
                let k = choose|k: nat| k < i && is_trial(n as nat, k) && (d == k || d == n as nat / k);
                assert(is_trial(n as nat, k) && (d == k || d == n as nat / k));
            }
        }
    }
    tree
}

/// Whether `i` is the position of the first element of `s` that is greater
/// than the one after it.
pub open spec fn first_descent_at(s: Seq<i32>, i: int) -> bool {
    &&& 0 <= i < s.len() - 1
    &&& s[i] > s[i + 1]
    &&& forall|k: int| 0 <= k < i ==> s[k] <= #[trigger] s[k + 1]
}

/// The first pair of neighbours that is out of order, if there is one:
/// none stands for a slice in ascending order.
pub fn first_descent(buf: &[i32]) -> (pair: Option<(i32, i32)>)
    ensures
        match pair {
            Some((a, b)) => exists|i: int| first_descent_at(buf@, i) && a == buf@[i] && b == buf@[i + 1],
            None => forall|i: int, j: int| 0 <= i <= j < buf@.len() ==> buf@[i] <= buf@[j],
        },
{
    let mut i: usize = 0;
    if buf.len() < 2 {
        return None;
    }
    while i < buf.len() - 1
        invariant
            i <= buf@.len() - 1,
            forall|a: int, b: int| 0 <= a <= b <= i ==> buf@[a] <= buf@[b],
            forall|k: int| 0 <= k < i ==> buf@[k] <= #[trigger] buf@[k + 1],
        decreases buf@.len() - i,
    {
        if buf[i] > buf[i + 1] {
            assert(first_descent_at(buf@, i as int));
            return Some((buf[i], buf[i + 1]));
        }
        i = i + 1;
    }
    None
}

} // verus!
