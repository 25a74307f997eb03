//! Functions over slices of integers and of directed edges: sums, the
//! vertices of a graph and of its two-cycles, primes and run-length
//! encoding. Most come in two forms with one contract.
use itertools::Itertools;
use vstd::arithmetic::div_mod::{lemma_fundamental_div_mod, lemma_fundamental_div_mod_converse};
use vstd::prelude::*;
use vstd::seq_lib::*;

verus! {

/// Whether each element is at most the ones after it.
pub open spec fn ascending(s: Seq<u32>) -> bool {
    forall|i: int, j: int| 0 <= i < j < s.len() ==> s[i] <= s[j]
}

/// Whether each element is less than the ones after it.
pub open spec fn strictly_ascending(s: Seq<u32>) -> bool {
    forall|i: int, j: int| 0 <= i < j < s.len() ==> s[i] < s[j]
}

/// `s` without the elements that repeat the one just before them.
pub open spec fn without_repeats(s: Seq<u32>) -> Seq<u32>
    decreases s.len(),
{
    if s.len() <= 1 {
        s
    } else if s[s.len() - 2] == s.last() {
        without_repeats(s.drop_last())
    } else {
        without_repeats(s.drop_last()).push(s.last())
    }
}

/// Dropping repeats keeps the last element and the set of elements, and
/// turns an ascending sequence into a strictly ascending one.
pub proof fn lemma_without_repeats(s: Seq<u32>)
    ensures
        s.len() > 0 ==> without_repeats(s).len() > 0 && without_repeats(s).last() == s.last(),
        forall|x: u32|
            #![trigger without_repeats(s).contains(x)]
            #![trigger s.contains(x)]
            without_repeats(s).contains(x) <==> s.contains(x),
        ascending(s) ==> strictly_ascending(without_repeats(s)),
    decreases s.len(),
{
    if s.len() <= 1 {
    } else {
        let front = s.drop_last();
        let kept = without_repeats(front);
        lemma_without_repeats(front);
        assert(front.last() == s[s.len() - 2]);
        let whole = without_repeats(s);
        assert forall|x: u32| whole.contains(x) <==> s.contains(x) by {
            if s.contains(x) {
                let i = choose|i: int| 0 <= i < s.len() && s[i] == x;
                if i == s.len() - 1 && s[s.len() - 2] != s.last() {
                    assert(whole[kept.len() as int] == x);
                } else {
                    if i == s.len() - 1 {
                        assert(front[s.len() - 2] == x);
                    } else {
                        assert(front[i] == x);
                    }
                    assert(front.contains(x));
                    assert(kept.contains(x));
                    let k = choose|k: int| 0 <= k < kept.len() && kept[k] == x;
                    assert(whole[k] == x);
                }
            }
            if whole.contains(x) {
                let i = choose|i: int| 0 <= i < whole.len() && whole[i] == x;
                if s[s.len() - 2] != s.last() && i == kept.len() {
                    assert(s[s.len() - 1] == x);
                } else {
                    assert(kept[i] == x);
                    assert(kept.contains(x));
                    assert(front.contains(x));
                    let j = choose|j: int| 0 <= j < front.len() && front[j] == x;
                    assert(s[j] == x);
                }
            }
        }
        if ascending(s) {
            assert(ascending(front)) by {
                assert forall|i: int, j: int| 0 <= i < j < front.len() implies front[i] <= front[j] by {
                    assert(s[i] <= s[j]);
                }
            }
            if s[s.len() - 2] != s.last() {
                assert forall|i: int, j: int| 0 <= i < j < without_repeats(s).len() implies without_repeats(
                    s,
                )[i] < without_repeats(s)[j] by {
                    if j == kept.len() {
                        assert(kept.contains(kept[i]));
                        let k = choose|k: int| 0 <= k < front.len() && front[k] == kept[i];
                        assert(s[k] <= s[s.len() - 2]);
                        assert(s[s.len() - 2] <= s[s.len() - 1]);
                    } else {
                        assert(kept[i] < kept[j]);
                    }
                }
            }
        }
    }
}

/// Sorts `v` into ascending order.
pub fn sort_ascending(v: &mut Vec<u32>)
    ensures
        ascending(final(v)@),
        final(v)@.to_multiset() == old(v)@.to_multiset(),
{
    let mut sorted: Vec<u32> = Vec::new();
    let mut i: usize = 0;
    assert(sorted@ =~= v@.take(0));
    while i < v.len()
        invariant
            i <= v@.len(),
            v@ == old(v)@,
            ascending(sorted@),
            sorted@.to_multiset() == v@.take(i as int).to_multiset(),
        decreases v@.len() - i,
    {
        let x = v[i];
        let mut p: usize = 0;
        while p < sorted.len() && sorted[p] <= x
            invariant
                p <= sorted@.len(),
                forall|k: int| 0 <= k < p ==> sorted@[k] <= x,
            decreases sorted@.len() - p,
        {
            p = p + 1;
        }
        let ghost before = sorted@;
        sorted.insert(p, x);
        proof {
            to_multiset_insert(before, p as int, x);
            to_multiset_build(v@.take(i as int), x);
            assert(v@.take(i as int).push(x) =~= v@.take(i + 1));
            assert(ascending(sorted@)) by {
                assert forall|a: int, b: int| 0 <= a < b < sorted@.len() implies sorted@[a]
                    <= sorted@[b] by {
                    if b < p {
                        assert(sorted@[a] == before[a] && sorted@[b] == before[b]);
                    } else if b == p {
                        assert(sorted@[a] == before[a]);
                    } else if a < p {
                        assert(sorted@[a] == before[a] && sorted@[b] == before[b - 1]);
                        assert(before[a] <= before[b - 1]);
                    } else if a == p {
                        assert(sorted@[b] == before[b - 1]);
                        assert(before[p as int] <= before[b - 1]);
                    } else {
                        assert(sorted@[a] == before[a - 1] && sorted@[b] == before[b - 1]);
                    }
                }
            }
        }
        i = i + 1;
    }
    assert(v@.take(i as int) =~= v@);
    *v = sorted;
}

/// Removes from `v` each element that repeats the one just before it.
pub fn dedup_adjacent(v: &mut Vec<u32>)
    ensures
        final(v)@ == without_repeats(old(v)@),
{
    let mut kept: Vec<u32> = Vec::new();
    let mut i: usize = 0;
    while i < v.len()
        invariant
            i <= v@.len(),
            v@ == old(v)@,
            kept@ == without_repeats(v@.take(i as int)),
        decreases v@.len() - i,
    {
        let ghost prefix = v@.take(i + 1);
        assert(prefix.drop_last() =~= v@.take(i as int));
        if i == 0 || v[i - 1] != v[i] {
            kept.push(v[i]);
        }
        i = i + 1;
    }
    assert(v@.take(i as int) =~= v@);
    *v = kept;
}

/// Sorts `v` and drops duplicates: what is left is strictly ascending and has
/// the elements that `v` had.
pub fn sort_unique(v: &mut Vec<u32>)
    ensures
        strictly_ascending(final(v)@),
        forall|x: u32| final(v)@.contains(x) <==> old(v)@.contains(x),
{
    sort_ascending(v);
    let ghost sorted = v@;
    dedup_adjacent(v);
    proof {
        lemma_without_repeats(sorted);
        assert forall|x: u32| sorted.contains(x) <==> old(v)@.contains(x) by {
            to_multiset_contains(sorted, x);
            to_multiset_contains(old(v)@, x);
        }
    }
}

/// The square of `x` if `x` is odd, and zero if it is even.
pub open spec fn odd_square(x: u32) -> int {
    if x % 2 == 1 {
        x * x
    } else {
        0
    }
}

/// The sum of the squares of the odd elements of `s`.
pub open spec fn odd_square_sum(s: Seq<u32>) -> int
    decreases s.len(),
{
    if s.len() == 0 {
        0
    } else {
        odd_square_sum(s.drop_last()) + odd_square(s.last())
    }
}

/// The sum over a prefix is at most the sum over the whole.
pub proof fn lemma_odd_square_sum_grows(s: Seq<u32>, n: int)
    requires
        0 <= n <= s.len(),
    ensures
        0 <= odd_square_sum(s.take(n)) <= odd_square_sum(s),
    decreases s.len() - n,
{
    if n == s.len() {
        assert(s.take(n) =~= s);
        lemma_odd_square_sum_positive(s);
    } else {
        lemma_odd_square_sum_grows(s, n + 1);
        assert(s.take(n + 1).drop_last() =~= s.take(n));
        lemma_odd_square_sum_positive(s.take(n));
    }
}

/// The sum is never negative.
pub proof fn lemma_odd_square_sum_positive(s: Seq<u32>)
    ensures
        0 <= odd_square_sum(s),
    decreases s.len(),
{
    if s.len() > 0 {
        lemma_odd_square_sum_positive(s.drop_last());
    }
}

/// The sum of the squares of the odd elements, by index.
pub fn sum_squares_odd_loop(list: &[u32]) -> (sum: u32)
    requires
        odd_square_sum(list@) <= u32::MAX,
    ensures
        sum == odd_square_sum(list@),
{
    let mut sum: u32 = 0;
    let mut i: usize = 0;
    while i < list.len()
        invariant
            i <= list@.len(),
            sum == odd_square_sum(list@.take(i as int)),
            odd_square_sum(list@) <= u32::MAX,
        decreases list@.len() - i,
    {
        let x = list[i];
        proof {
            lemma_odd_square_sum_grows(list@, i + 1);
            lemma_odd_square_sum_positive(list@.take(i as int));
            assert(list@.take(i + 1).drop_last() =~= list@.take(i as int));
        }
        if x % 2 == 1 {
            sum += x * x;
        }
        i = i + 1;
    }
    assert(list@.take(i as int) =~= list@);
    sum
}

/// The sum of the squares of the odd elements, by iteration.
pub fn sum_squares_odd(list: &[u32]) -> (sum: u32)
    requires
        odd_square_sum(list@) <= u32::MAX,
    ensures
        sum == odd_square_sum(list@),
{
    let mut sum: u32 = 0;
    for x in it: list.iter()
        invariant
            it.seq().len() == list@.len(),
            forall|k: int| 0 <= k < list@.len() ==> *it.seq()[k] == list@[k],
            sum == odd_square_sum(list@.take(it.index() as int)),
            odd_square_sum(list@) <= u32::MAX,
    {
        proof {
            let i = it.index() as int;
            lemma_odd_square_sum_grows(list@, i + 1);
            lemma_odd_square_sum_positive(list@.take(i));
            assert(list@.take(i + 1).drop_last() =~= list@.take(i));
        }
        if *x % 2 == 1 {
            sum += *x * *x;
        }
    }
    assert(list@.take(list@.len() as int) =~= list@);
    sum
}

/// Whether `v` is an end of one of the edges.
pub open spec fn is_vertex(edges: Seq<(u32, u32)>, v: u32) -> bool {
    exists|i: int| 0 <= i < edges.len() && touches(#[trigger] edges[i], v)
}

/// Whether `v` is an end of `edge`.
pub open spec fn touches(edge: (u32, u32), v: u32) -> bool {
    edge.0 == v || edge.1 == v
}

/// Whether `x` occurs in `v`.
fn holds(v: &Vec<u32>, x: u32) -> (found: bool)
    ensures
        found == v@.contains(x),
{
    let mut i: usize = 0;
    while i < v.len()
        invariant
            i <= v@.len(),
            forall|k: int| 0 <= k < i ==> v@[k] != x,
        decreases v@.len() - i,
    {
        if v[i] == x {
            return true;
        }
        i = i + 1;
    }
    false
}

/// An ascending sequence without duplicates is strictly ascending.
proof fn lemma_ascending_distinct(s: Seq<u32>)
    requires
        ascending(s),
        s.no_duplicates(),
    ensures
        strictly_ascending(s),
{
}

/// The vertices of a graph given by its edges, in strictly ascending order.
/// Each vertex is collected once, then the collection is sorted.
pub fn vertices_loop(edges: &[(u32, u32)]) -> (vertices: Vec<u32>)
    ensures
        strictly_ascending(vertices@),
        forall|v: u32| vertices@.contains(v) <==> is_vertex(edges@, v),
{
    let mut vertices: Vec<u32> = Vec::new();
    let mut i: usize = 0;
    while i < edges.len()
        invariant
            i <= edges@.len(),
            vertices@.no_duplicates(),
            forall|v: u32| vertices@.contains(v) <==> is_vertex(edges@.take(i as int), v),
        decreases edges@.len() - i,
    {
        let (x, y) = edges[i];
        let ghost before = vertices@;
        if !holds(&vertices, y) {
            vertices.push(y);
        }
        let ghost between = vertices@;
        assert(between.contains(y)) by {
            if !before.contains(y) {
                assert(between[before.len() as int] == y);
            }
        }
        if !holds(&vertices, x) {
            vertices.push(x);
        }
        proof {
            let seen = edges@.take(i as int);
            let next = edges@.take(i + 1);
            assert(next[i as int] == (x, y));
            assert(vertices@.contains(x)) by {
                if !between.contains(x) {
                    assert(vertices@[between.len() as int] == x);
                }
            }
            assert(vertices@.contains(y)) by {
                let m = choose|m: int| 0 <= m < between.len() && between[m] == y;
                assert(vertices@[m] == y);
            }
            assert forall|v: u32| vertices@.contains(v) <==> is_vertex(next, v) by {
                if is_vertex(next, v) {
                    let k = choose|k: int| 0 <= k < next.len() && touches(#[trigger] next[k], v);
                    if k < i {
                        assert(touches(seen[k], v));
                        assert(is_vertex(seen, v));
                        assert(before.contains(v));
                        let m = choose|m: int| 0 <= m < before.len() && before[m] == v;
                        assert(vertices@[m] == v);
                    }
                }
                if vertices@.contains(v) {
                    let m = choose|m: int| 0 <= m < vertices@.len() && vertices@[m] == v;
                    if m < before.len() {
                        assert(before[m] == v);
                        assert(before.contains(v));
                        assert(is_vertex(seen, v));
                        let k = choose|k: int| 0 <= k < seen.len() && touches(#[trigger] seen[k], v);
                        assert(touches(next[k], v));
                    } else {
                        assert(touches(next[i as int], v));
                    }
                }
            }
        }
        i = i + 1;
    }
    assert(edges@.take(i as int) =~= edges@);
    let ghost collected = vertices@;
    sort_ascending(&mut vertices);
    proof {
        collected.lemma_multiset_has_no_duplicates();
        vertices@.lemma_multiset_has_no_duplicates_conv();
        lemma_ascending_distinct(vertices@);
        assert forall|v: u32| vertices@.contains(v) <==> is_vertex(edges@, v) by {
            to_multiset_contains(vertices@, v);
            to_multiset_contains(collected, v);
            assert(collected.contains(v) <==> is_vertex(edges@, v));
        }
    }
    vertices
}

/// The vertices of a graph given by its edges, in strictly ascending order.
/// Every end of every edge is collected, then the collection is sorted and
/// rid of duplicates.
pub fn vertices(edges: &[(u32, u32)]) -> (vertices: Vec<u32>)
    ensures
        strictly_ascending(vertices@),
        forall|v: u32| vertices@.contains(v) <==> is_vertex(edges@, v),
{
    let mut vertices: Vec<u32> = Vec::new();
    for edge in it: edges.iter()
        invariant
            it.seq().len() == edges@.len(),
            forall|k: int| 0 <= k < edges@.len() ==> *it.seq()[k] == edges@[k],
            vertices@.len() == 2 * it.index(),
            forall|k: int|
                0 <= k < it.index() ==> vertices@[2 * k] == edges@[k].0 && vertices@[2 * k + 1]
                    == edges@[k].1,
    {
        vertices.push(edge.0);
        vertices.push(edge.1);
    }
    let ghost collected = vertices@;
    proof {
        assert forall|v: u32| collected.contains(v) <==> is_vertex(edges@, v) by {
            if is_vertex(edges@, v) {
                let k = choose|k: int| 0 <= k < edges@.len() && touches(#[trigger] edges@[k], v);
                assert(collected[2 * k] == v || collected[2 * k + 1] == v);
            }
            if collected.contains(v) {
                let m = choose|m: int| 0 <= m < collected.len() && collected[m] == v;
                let k = m / 2;
                assert(m == 2 * k || m == 2 * k + 1);
                assert(touches(edges@[k], v));
            }
        }
    }
    sort_unique(&mut vertices);
    vertices
}

/// Whether `a` and `b` are the two edges of a cycle of length two: each is
/// the other reversed, and the ends differ.
pub open spec fn closes(a: (u32, u32), b: (u32, u32)) -> bool {
    a.0 == b.1 && a.1 == b.0 && a.0 != a.1
}

/// Whether `v` lies on a cycle of length two found among the pairs of edges
/// that come, row by row, before the pair at `(row, column)`.
pub open spec fn on_two_cycle_before(edges: Seq<(u32, u32)>, v: u32, row: int, column: int) -> bool {
    exists|i: int, j: int|
        0 <= i < edges.len() && 0 <= j < edges.len() && (i < row || (i == row && j < column))
            && #[trigger] closes(edges[i], edges[j]) && touches(edges[i], v)
}

/// Whether `v` lies on a cycle of length two: `v` is an end of an edge
/// whose reverse is an edge too and whose ends differ.
pub open spec fn on_two_cycle(edges: Seq<(u32, u32)>, v: u32) -> bool {
    exists|i: int, j: int|
        0 <= i < edges.len() && 0 <= j < edges.len() && #[trigger] closes(edges[i], edges[j])
            && touches(edges[i], v)
}

/// Once every pair is taken into account, what was found is every vertex
/// on a cycle of length two.
proof fn lemma_two_cycle_all(edges: Seq<(u32, u32)>, v: u32)
    ensures
        on_two_cycle_before(edges, v, edges.len() as int, 0) <==> on_two_cycle(edges, v),
{
    if on_two_cycle_before(edges, v, edges.len() as int, 0) {
        let (i, j) = choose|i: int, j: int|
            0 <= i < edges.len() && 0 <= j < edges.len() && (i < edges.len() || (i == edges.len()
                && j < 0)) && #[trigger] closes(edges[i], edges[j]) && touches(edges[i], v);
        assert(closes(edges[i], edges[j]));
    }
    if on_two_cycle(edges, v) {
        let (i, j) = choose|i: int, j: int|
            0 <= i < edges.len() && 0 <= j < edges.len() && #[trigger] closes(edges[i], edges[j])
                && touches(edges[i], v);
        assert(closes(edges[i], edges[j]));
    }
}

/// Adds both ends of `edge` to `vertices`.
fn note_ends(vertices: &mut Vec<u32>, edge: (u32, u32))
    ensures
        forall|v: u32| #[trigger]
            final(vertices)@.contains(v) <==> old(vertices)@.contains(v) || touches(edge, v),
{
    broadcast use lemma_seq_contains_after_push;

    vertices.push(edge.0);
    vertices.push(edge.1);
}

/// Taking one more pair into account adds the ends of a closing pair and
/// nothing else.
proof fn lemma_two_cycle_step(edges: Seq<(u32, u32)>, v: u32, row: int, column: int)
    requires
        0 <= row < edges.len(),
        0 <= column < edges.len(),
    ensures
        on_two_cycle_before(edges, v, row, column + 1) <==> on_two_cycle_before(edges, v, row, column)
            || (closes(edges[row], edges[column]) && touches(edges[row], v)),
{
    if on_two_cycle_before(edges, v, row, column + 1) {
        let (i, j) = choose|i: int, j: int|
            0 <= i < edges.len() && 0 <= j < edges.len() && (i < row || (i == row && j < column + 1))
                && #[trigger] closes(edges[i], edges[j]) && touches(edges[i], v);
        if !(i == row && j == column) {
            assert(closes(edges[i], edges[j]));
        }
    }
    if on_two_cycle_before(edges, v, row, column) {
        let (i, j) = choose|i: int, j: int|
            0 <= i < edges.len() && 0 <= j < edges.len() && (i < row || (i == row && j < column))
                && #[trigger] closes(edges[i], edges[j]) && touches(edges[i], v);
        assert(closes(edges[i], edges[j]));
    }
    if closes(edges[row], edges[column]) && touches(edges[row], v) {
    }
}

/// The end of a row is the start of the next.
proof fn lemma_two_cycle_row(edges: Seq<(u32, u32)>, v: u32, row: int)
    requires
        0 <= row < edges.len(),
    ensures
        on_two_cycle_before(edges, v, row, edges.len() as int) <==> on_two_cycle_before(
            edges,
            v,
            row + 1,
            0,
        ),
{
    if on_two_cycle_before(edges, v, row, edges.len() as int) {
        let (i, j) = choose|i: int, j: int|
            0 <= i < edges.len() && 0 <= j < edges.len() && (i < row || (i == row && j < edges.len()))
                && #[trigger] closes(edges[i], edges[j]) && touches(edges[i], v);
        assert(closes(edges[i], edges[j]));
    }
    if on_two_cycle_before(edges, v, row + 1, 0) {
        let (i, j) = choose|i: int, j: int|
            0 <= i < edges.len() && 0 <= j < edges.len() && (i < row + 1 || (i == row + 1 && j < 0))
                && #[trigger] closes(edges[i], edges[j]) && touches(edges[i], v);
        assert(closes(edges[i], edges[j]));
    }
}

/// The vertices that lie on a cycle of length two, in strictly ascending
/// order. Every pair of edges is visited by index.
pub fn cycles_2_loop(edges: &[(u32, u32)]) -> (vertices: Vec<u32>)
    ensures
        strictly_ascending(vertices@),
        forall|v: u32| vertices@.contains(v) <==> on_two_cycle(edges@, v),
{
    let mut vertices: Vec<u32> = Vec::new();
    let n = edges.len();
    let mut i: usize = 0;
    while i < n
        invariant
            n == edges@.len(),
            i <= n,
            forall|v: u32| vertices@.contains(v) <==> on_two_cycle_before(edges@, v, i as int, 0),
        decreases n - i,
    {
        let mut j: usize = 0;
        while j < n
            invariant
                n == edges@.len(),
                i < n,
                j <= n,
                forall|v: u32|
                    vertices@.contains(v) <==> on_two_cycle_before(edges@, v, i as int, j as int),
            decreases n - j,
        {
            let (x, y) = edges[i];
            let (u, v) = edges[j];
            let ghost before = vertices@;
            if x == v && y == u && v != u {
                note_ends(&mut vertices, (u, v));
            }
            proof {
                assert forall|w: u32|
                    vertices@.contains(w) <==> on_two_cycle_before(
                        edges@,
                        w,
                        i as int,
                        j + 1,
                    ) by {
                    lemma_two_cycle_step(edges@, w, i as int, j as int);
                    assert(before.contains(w) <==> on_two_cycle_before(edges@, w, i as int, j as int));
                }
            }
            j = j + 1;
        }
        proof {
            assert forall|w: u32|
                vertices@.contains(w) <==> on_two_cycle_before(edges@, w, i + 1, 0) by {
                lemma_two_cycle_row(edges@, w, i as int);
                assert(vertices@.contains(w) <==> on_two_cycle_before(edges@, w, i as int, n as int));
            }
        }
        i = i + 1;
    }
    let ghost collected = vertices@;
    sort_unique(&mut vertices);
    proof {
        assert forall|w: u32| vertices@.contains(w) <==> on_two_cycle(edges@, w) by {
            lemma_two_cycle_all(edges@, w);
            assert(collected.contains(w) <==> on_two_cycle_before(edges@, w, n as int, 0));
        }
    }
    vertices
}

/// The pairs of `a` with `b`, row by row: each element of `a`, in order,
/// with each element of `b`, in order.
pub open spec fn product(a: Seq<(u32, u32)>, b: Seq<(u32, u32)>) -> Seq<((u32, u32), (u32, u32))> {
    Seq::new(a.len() * b.len(), |k: int| (a[k / b.len() as int], b[k % b.len() as int]))
}

/// Every pair of edges, by `cartesian_product` of itertools on two passes
/// over `edges`. The contract claims what its documentation shows: the pairs
/// come row by row, each edge with every edge in order. It leaves out the
/// slices whose pairs are too many to count in a `usize`.
#[verifier::external_body]
fn edge_pairs(edges: &[(u32, u32)]) -> (pairs: Vec<((u32, u32), (u32, u32))>)
    requires
        edges@.len() * edges@.len() <= usize::MAX,
    ensures
        pairs@ == product(edges@, edges@),
{
    edges.iter().copied().cartesian_product(edges.iter().copied()).collect()
}

/// The vertices that lie on a cycle of length two, in strictly ascending
/// order. The pairs of edges are taken from their cartesian product.
pub fn cycles_2(edges: &[(u32, u32)]) -> (vertices: Vec<u32>)
    requires
        edges@.len() * edges@.len() <= usize::MAX,
    ensures
        strictly_ascending(vertices@),
        forall|v: u32| vertices@.contains(v) <==> on_two_cycle(edges@, v),
{
    let pairs = edge_pairs(edges);
    let n = edges.len();
    let mut vertices: Vec<u32> = Vec::new();
    let mut k: usize = 0;
    let ghost mut row: int = 0;
    let ghost mut column: int = 0;
    while k < pairs.len()
        invariant
            n == edges@.len(),
            pairs@ == product(edges@, edges@),
            k <= pairs@.len(),
            k == row * n + column,
            0 <= row <= n,
            0 <= column < n || (column == 0 && row == n),
            forall|v: u32| vertices@.contains(v) <==> on_two_cycle_before(edges@, v, row, column),
        decreases pairs@.len() - k,
    {
        let (x, y) = pairs[k];
        proof {
            if row == n {
                assert(k == n * n) by (nonlinear_arith)
                    requires
                        k == row * n + column,
                        row == n,
                        column == 0,
                ;
            }
            lemma_fundamental_div_mod_converse(k as int, n as int, row, column);
            assert(x == edges@[row] && y == edges@[column]);
        }
        let ghost before = vertices@;
        if x.0 == y.1 && x.1 == y.0 && x.1 != x.0 {
            note_ends(&mut vertices, x);
            note_ends(&mut vertices, y);
        }
        proof {
            assert forall|w: u32|
                vertices@.contains(w) <==> on_two_cycle_before(edges@, w, row, column + 1) by {
                lemma_two_cycle_step(edges@, w, row, column);
                assert(before.contains(w) <==> on_two_cycle_before(edges@, w, row, column));
            }
            if column + 1 == n {
                assert forall|w: u32|
                    vertices@.contains(w) <==> on_two_cycle_before(edges@, w, row + 1, 0) by {
                    lemma_two_cycle_row(edges@, w, row);
                    assert(vertices@.contains(w) <==> on_two_cycle_before(edges@, w, row, n as int));
                }
                assert((row + 1) * n + 0 == row * n + column + 1) by (nonlinear_arith)
                    requires
                        column + 1 == n,
                ;
                row = row + 1;
                column = 0;
            } else {
                column = column + 1;
            }
        }
        k = k + 1;
    }
    proof {
        if row < n {
            assert(row * n + column < n * n) by (nonlinear_arith)
                requires
                    0 <= row < n,
                    0 <= column < n,
            ;
        }
    }
    let ghost collected = vertices@;
    sort_unique(&mut vertices);
    proof {
        assert forall|w: u32| vertices@.contains(w) <==> on_two_cycle(edges@, w) by {
            lemma_two_cycle_all(edges@, w);
            assert(collected.contains(w) <==> on_two_cycle_before(edges@, w, n as int, 0));
        }
    }
    vertices
}

/// Whether `n` is prime: at least two, and divisible by nothing between
/// one and itself.
pub open spec fn prime(n: int) -> bool {
    n >= 2 && forall|d: int| 2 <= d < n ==> #[trigger] (n % d) != 0
}

/// A number with no divisor from two up to its square root has none below
/// itself.
proof fn lemma_no_small_divisor(n: int, bound: int)
    requires
        n >= 2,
        bound >= 2,
        bound * bound > n,
        forall|d: int| 2 <= d < bound ==> #[trigger] (n % d) != 0,
    ensures
        prime(n),
{
    assert forall|d: int| 2 <= d < n implies #[trigger] (n % d) != 0 by {
        if d >= bound && n % d == 0 {
            let q = n / d;
            lemma_fundamental_div_mod(n, d);
            assert(n == d * q);
            assert(q >= 2) by (nonlinear_arith)
                requires
                    n == d * q,
                    2 <= d < n,
            ;
            assert(q < bound) by (nonlinear_arith)
                requires
                    n == d * q,
                    d >= bound,
                    bound * bound > n,
                    bound >= 2,
                    q >= 2,
            ;
            lemma_fundamental_div_mod_converse(n, q, d, 0);
            assert(n % q == 0);
        }
    }
}

/// Whether `n` is prime, by trial division up to its square root.
pub fn is_prime(n: u32) -> (answer: bool)
    ensures
        answer == prime(n as int),
{
    if n < 2 {
        return false;
    }
    let mut d: u32 = 2;
    while d <= n / d
        invariant
            2 <= d <= n,
            forall|k: int| 2 <= k < d ==> #[trigger] (n as int % k) != 0,
        decreases n - d,
    {
        assert(d * d <= n) by (nonlinear_arith)
            requires
                d <= n / d,
                d >= 2,
        {
            lemma_fundamental_div_mod(n as int, d as int);
        }
        assert(d < n) by (nonlinear_arith)
            requires
                d * d <= n,
                d >= 2,
        ;
        if n % d == 0 {
            return false;
        }
        d = d + 1;
    }
    proof {
        assert(d as int * d as int > n) by (nonlinear_arith)
            requires
                d > n / d,
                d >= 2,
                n >= 0,
        {
            lemma_fundamental_div_mod(n as int, d as int);
        }
        lemma_no_small_divisor(n as int, d as int);
    }
    true
}

/// The primes below `n`, in strictly ascending order, by a counting loop.
pub fn primes_loop(n: u32) -> (primes: Vec<u32>)
    ensures
        strictly_ascending(primes@),
        forall|p: u32| primes@.contains(p) <==> p < n && prime(p as int),
{
    let mut vec: Vec<u32> = Vec::new();
    let mut i: u32 = 0;
    while i < n
        invariant
            i <= n,
            strictly_ascending(vec@),
            forall|k: int| 0 <= k < vec@.len() ==> vec@[k] < i,
            forall|p: u32| vec@.contains(p) <==> p < i && prime(p as int),
        decreases n - i,
    {
        let ghost before = vec@;
        if is_prime(i) {
            vec.push(i);
        }
        proof {
            broadcast use lemma_seq_contains_after_push;

            assert forall|p: u32| vec@.contains(p) <==> p < i + 1 && prime(p as int) by {
                assert(before.contains(p) <==> p < i && prime(p as int));
            }
        }
        i = i + 1;
    }
    vec
}

/// The primes below `n`, in strictly ascending order, by a pass over the
/// candidates from two.
pub fn primes(n: u32) -> (primes: Vec<u32>)
    ensures
        strictly_ascending(primes@),
        forall|p: u32| primes@.contains(p) <==> p < n && prime(p as int),
{
    let mut vec: Vec<u32> = Vec::new();
    let mut candidate: u32 = 2;
    while candidate < n
        invariant
            2 <= candidate,
            candidate <= n || candidate == 2,
            strictly_ascending(vec@),
            forall|k: int| 0 <= k < vec@.len() ==> vec@[k] < candidate,
            forall|p: u32| vec@.contains(p) <==> p < candidate && prime(p as int),
        decreases n - candidate,
    {
        let ghost before = vec@;
        if is_prime(candidate) {
            vec.push(candidate);
        }
        proof {
            broadcast use lemma_seq_contains_after_push;

            assert forall|p: u32| vec@.contains(p) <==> p < candidate + 1 && prime(p as int) by {
                assert(before.contains(p) <==> p < candidate && prime(p as int));
            }
        }
        candidate = candidate + 1;
    }
    assert forall|p: u32| vec@.contains(p) <==> p < n && prime(p as int) by {
        assert(vec@.contains(p) <==> p < candidate && prime(p as int));
    }
    vec
}

/// The list that a sequence of runs stands for: each value as often as
/// its count says, run after run.
pub open spec fn expanded(runs: Seq<(u32, usize)>) -> Seq<u32>
    decreases runs.len(),
{
    if runs.len() == 0 {
        Seq::empty()
    } else {
        expanded(runs.drop_last()) + Seq::new(runs.last().1 as nat, |i: int| runs.last().0)
    }
}

/// Whether `runs` is the run-length encoding of `list`: it expands to
/// `list`, no run is empty, and neighbouring runs have different values.
pub open spec fn is_run_length_encoding(runs: Seq<(u32, usize)>, list: Seq<u32>) -> bool {
    &&& expanded(runs) == list
    &&& forall|k: int| 0 <= k < runs.len() ==> (#[trigger] runs[k]).1 > 0
    &&& forall|k: int| 0 < k < runs.len() ==> runs[k - 1].0 != (#[trigger] runs[k]).0
}

/// The run-length encoding of `list`, one whole run at a time.
pub fn run_length_encode_loop(list: &[u32]) -> (runs: Vec<(u32, usize)>)
    ensures
        is_run_length_encoding(runs@, list@),
{
    let mut runs: Vec<(u32, usize)> = Vec::new();
    let mut i: usize = 0;
    assert(list@.take(0) =~= expanded(runs@));
    while i < list.len()
        invariant
            i <= list@.len(),
            is_run_length_encoding(runs@, list@.take(i as int)),
            runs@.len() > 0 && i < list@.len() ==> runs@.last().0 != list@[i as int],
        decreases list@.len() - i,
    {
        let value = list[i];
        let mut count: usize = 1;
        while i + count < list.len() && list[i + count] == value
            invariant
                i < list@.len(),
                list@.len() <= usize::MAX,
                1 <= count,
                i + count <= list@.len(),
                forall|k: int| i <= k < i + count ==> list@[k] == value,
            decreases list@.len() - count,
        {
            count = count + 1;
        }
        let ghost before = runs@;
        runs.push((value, count));
        proof {
            assert(runs@.drop_last() =~= before);
            assert(expanded(runs@) =~= list@.take(i + count));
        }
        i = i + count;
    }
    assert(list@.take(i as int) =~= list@);
    runs
}

/// The last run is no longer than the whole.
proof fn lemma_last_run_fits(runs: Seq<(u32, usize)>)
    requires
        runs.len() > 0,
    ensures
        runs.last().1 <= expanded(runs).len(),
{
}

/// The run-length encoding of `list`, one element at a time: an element
/// either lengthens the run before it or starts a new one.
pub fn run_length_encode(list: &[u32]) -> (runs: Vec<(u32, usize)>)
    ensures
        is_run_length_encoding(runs@, list@),
{
    let mut runs: Vec<(u32, usize)> = Vec::new();
    let mut i: usize = 0;
    assert(list@.take(0) =~= expanded(runs@));
    while i < list.len()
        invariant
            i <= list@.len(),
            is_run_length_encoding(runs@, list@.take(i as int)),
            i > 0 ==> runs@.len() > 0 && runs@.last().0 == list@[i - 1],
        decreases list@.len() - i,
    {
        let x = list[i];
        let ghost before = runs@;
        let last = runs.len();
        if last > 0 && runs[last - 1].0 == x {
            let count = runs[last - 1].1;
            proof {
                lemma_last_run_fits(before);
            }
            runs.set(last - 1, (x, count + 1));
            proof {
                assert(runs@.drop_last() =~= before.drop_last());
                assert(expanded(runs@) =~= expanded(before).push(x));
            }
        } else {
            runs.push((x, 1));
            proof {
                assert(runs@.drop_last() =~= before);
                assert(expanded(runs@) =~= expanded(before).push(x));
            }
        }
        proof {
            assert(list@.take(i + 1) =~= list@.take(i as int).push(x));
        }
        i = i + 1;
    }
    assert(list@.take(i as int) =~= list@);
    runs
}

} // verus!
