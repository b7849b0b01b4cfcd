use vstd::prelude::*;

use crate::random::random_below;

verus! {

/// Number of lattice cells along each axis before the tables repeat.
pub const POINT_COUNT: usize = 256;

/// `s` holds each of `0..n` exactly once.
pub open spec fn is_permutation(s: Seq<usize>, n: nat) -> bool {
    &&& s.len() == n
    &&& forall|a: int| 0 <= a < s.len() ==> s[a] < n
    &&& s.no_duplicates()
}

/// Reordering the entries of a permutation leaves a permutation.
pub proof fn lemma_reordered_permutation(s: Seq<usize>, t: Seq<usize>, n: nat)
    requires
        is_permutation(s, n),
        t.to_multiset() == s.to_multiset(),
    ensures
        is_permutation(t, n),
{
    broadcast use vstd::seq_lib::group_to_multiset_ensures;
    vstd::seq_lib::to_multiset_len(s);
    vstd::seq_lib::to_multiset_len(t);
    assert(t.len() == s.len());
    assert forall|a: int| 0 <= a < t.len() implies t[a] < n by {
        assert(t.contains(t[a]));
        vstd::seq_lib::to_multiset_contains(t, t[a]);
        vstd::seq_lib::to_multiset_contains(s, t[a]);
    }
    s.lemma_multiset_has_no_duplicates();
    assert forall|x: usize| t.to_multiset().contains(x) implies t.to_multiset().count(x) == 1 by {
    }
    t.lemma_multiset_has_no_duplicates_conv();
}

/// The table cell of lattice coordinate `i`: `i` modulo the table size.
pub open spec fn cell(i: int) -> int {
    i % (POINT_COUNT as int)
}

/// `s` with the entries at `i` and `j` exchanged.
pub open spec fn swapped(s: Seq<usize>, i: int, j: int) -> Seq<usize> {
    s.update(i, s[j]).update(j, s[i])
}

/// Targets for shuffling the first `n` entries: the one for position `i`
/// lies below `i`.
pub open spec fn valid_draws(draws: Seq<usize>, n: nat) -> bool {
    &&& draws.len() >= n
    &&& forall|i: int| 1 <= i < n ==> #[trigger] draws[i] < i
}

/// `s` after positions `i - 1` down to `1` are each exchanged, in that order,
/// with their target in `draws`.
pub open spec fn shuffled(s: Seq<usize>, draws: Seq<usize>, i: int) -> Seq<usize>
    decreases i,
{
    if i <= 1 {
        s
    } else {
        shuffled(swapped(s, i - 1, draws[i - 1] as int), draws, i - 1)
    }
}

/// The entries `0..n` in order.
pub open spec fn identity(n: nat) -> Seq<usize> {
    Seq::new(n, |i: int| i as usize)
}

/// `s` is `0..POINT_COUNT` shuffled by some valid targets.
pub open spec fn is_shuffled_table(s: Seq<usize>) -> bool {
    exists|draws: Seq<usize>|
        valid_draws(draws, POINT_COUNT as nat) && s == shuffled(
            identity(POINT_COUNT as nat),
            draws,
            POINT_COUNT as int,
        )
}

/// Shuffles `p[..n]` in place: each position, from the last down to the
/// second, is exchanged with its target in `draws`.
pub fn permute_with(p: &mut Vec<usize>, draws: &Vec<usize>, n: usize)
    requires
        n <= old(p).len(),
        valid_draws(draws@, n as nat),
    ensures
        final(p)@ == shuffled(old(p)@, draws@, n as int),
        final(p)@.len() == old(p)@.len(),
        final(p)@.to_multiset() == old(p)@.to_multiset(),
        forall|a: int| n <= a < old(p)@.len() ==> final(p)@[a] == old(p)@[a],
{
    broadcast use vstd::seq_lib::group_to_multiset_ensures;
    let mut i: usize = n;
    while i > 1
        invariant
            i <= n <= p@.len(),
            valid_draws(draws@, n as nat),
            shuffled(p@, draws@, i as int) == shuffled(old(p)@, draws@, n as int),
            p@.len() == old(p)@.len(),
            p@.to_multiset() == old(p)@.to_multiset(),
            forall|a: int| n <= a < old(p)@.len() ==> p@[a] == old(p)@[a],
        decreases i,
    {
        i = i - 1;
        let target = draws[i];
        let a = p[i];
        let b = p[target];
        let ghost before = p@;
        p.set(i, b);
        let ghost middle = p@;
        p.set(target, a);
        proof {
            broadcast use vstd::multiset::group_multiset_axioms;
            assert(p@ == swapped(before, i as int, target as int));
            vstd::seq_lib::to_multiset_update(before, i as int, b);
            vstd::seq_lib::to_multiset_update(middle, target as int, a);
            assert(before[i as int] == a);
            assert(before.contains(a));
            vstd::seq_lib::to_multiset_contains(before, a);
            let m = before.to_multiset();
            assert forall|v: usize| #[trigger] p@.to_multiset().count(v) == m.count(v) by {
                if v == a && v == b {
                } else if v == a {
                } else if v == b {
                }
            }
            assert(p@.to_multiset() =~= before.to_multiset());
        }
    }
}

/// Shuffles `p[..n]` in place, drawing for each position, from the last down
/// to the second, a target below it at random. The entries are only
/// reordered, and those from `n` on stay where they are.
pub fn permute(p: &mut Vec<usize>, n: usize)
    requires
        n <= old(p).len(),
    ensures
        exists|draws: Seq<usize>|
            valid_draws(draws, n as nat) && final(p)@ == shuffled(old(p)@, draws, n as int),
        final(p)@.len() == old(p)@.len(),
        final(p)@.to_multiset() == old(p)@.to_multiset(),
        forall|a: int| n <= a < old(p)@.len() ==> final(p)@[a] == old(p)@[a],
{
    let mut draws: Vec<usize> = Vec::new();
    let mut i: usize = 0;
    while i < n
        invariant
            i <= n,
            draws@.len() == i,
            forall|a: int| 1 <= a < i ==> #[trigger] draws@[a] < a,
        decreases n - i,
    {
        if i == 0 {
            draws.push(0);
        } else {
            draws.push(random_below(i));
        }
        i = i + 1;
    }
    permute_with(p, &draws, n);
}

/// What the three permutation tables of a [`Perlin`] hold.
pub ghost struct PerlinTables {
    pub x: Seq<usize>,
    pub y: Seq<usize>,
    pub z: Seq<usize>,
}

impl PerlinTables {
    /// Each table holds each cell index exactly once.
    pub open spec fn wf(self) -> bool {
        &&& is_permutation(self.x, POINT_COUNT as nat)
        &&& is_permutation(self.y, POINT_COUNT as nat)
        &&& is_permutation(self.z, POINT_COUNT as nat)
    }

    /// The gradient slot of lattice point `(i, j, k)`: the three tables'
    /// entries for its cells, combined by exclusive or.
    pub open spec fn hash(self, i: int, j: int, k: int) -> usize {
        self.x[cell(i)] ^ self.y[cell(j)] ^ self.z[cell(k)]
    }
}

/// The lattice tables of Perlin noise: for every integer lattice point they
/// pick one of `POINT_COUNT` gradient slots. They are drawn at random once, on
/// construction, and never change after.
pub struct Perlin {
    perm_x: Vec<usize>,
    perm_y: Vec<usize>,
    perm_z: Vec<usize>,
}

impl View for Perlin {
    type V = PerlinTables;

    closed spec fn view(&self) -> PerlinTables {
        PerlinTables { x: self.perm_x@, y: self.perm_y@, z: self.perm_z@ }
    }
}

proof fn lemma_xor_below(a: usize, b: usize, c: usize)
    requires
        a < 256,
        b < 256,
        c < 256,
    ensures
        a ^ b ^ c < 256,
{
    assert(a < 256 && b < 256 && c < 256 ==> a ^ b ^ c < 256) by (bit_vector);
}

impl Perlin {
    /// Draws three fresh permutation tables.
    pub fn new() -> (r: Perlin)
        ensures
            r@.wf(),
            is_shuffled_table(r@.x),
            is_shuffled_table(r@.y),
            is_shuffled_table(r@.z),
    {
        let perm_x = perlin_generate_perm();
        let perm_y = perlin_generate_perm();
        let perm_z = perlin_generate_perm();
        Perlin { perm_x, perm_y, perm_z }
    }

    /// The gradient slot of lattice point `(i + di, j + dj, k + dk)`.
    pub fn corner(&self, i: i32, j: i32, k: i32, di: usize, dj: usize, dk: usize) -> (r: usize)
        requires
            self@.wf(),
            di <= 1,
            dj <= 1,
            dk <= 1,
        ensures
            r < POINT_COUNT,
            r == self@.hash(i + di, j + dj, k + dk),
    {
        let a = self.perm_x[lattice_cell(i, di)];
        let b = self.perm_y[lattice_cell(j, dj)];
        let c = self.perm_z[lattice_cell(k, dk)];
        proof {
            lemma_xor_below(a, b, c);
        }
        a ^ b ^ c
    }

    /// The gradient slots of the eight corners of the lattice cell whose
    /// lowest corner is `(i, j, k)`. Corner `4 * di + 2 * dj + dk` lies at
    /// `(i + di, j + dj, k + dk)`. The result depends on the tables and the
    /// cell alone, so a fixed table set always gives the same slots.
    pub fn lattice_corners(&self, i: i32, j: i32, k: i32) -> (r: Vec<usize>)
        requires
            self@.wf(),
        ensures
            r@.len() == 8,
            forall|c: int|
                0 <= c < 8 ==> #[trigger] r@[c] == self@.hash(i + c / 4, j + (c / 2) % 2, k + c % 2),
    {
        let mut r: Vec<usize> = Vec::new();
        let mut c: usize = 0;
        while c < 8
            invariant
                self@.wf(),
                c <= 8,
                r@.len() == c,
                forall|e: int|
                    0 <= e < c ==> #[trigger] r@[e] == self@.hash(i + e / 4, j + (e / 2) % 2, k + e % 2),
            decreases 8 - c,
        {
            let slot = self.corner(i, j, k, c / 4, (c / 2) % 2, c % 2);
            r.push(slot);
            c = c + 1;
        }
        r
    }
}

/// A fresh random permutation of `0..POINT_COUNT`.
pub fn perlin_generate_perm() -> (r: Vec<usize>)
    ensures
        is_permutation(r@, POINT_COUNT as nat),
        is_shuffled_table(r@),
{
    let mut p: Vec<usize> = Vec::new();
    let mut i: usize = 0;
    while i < POINT_COUNT
        invariant
            i <= POINT_COUNT,
            p@.len() == i,
            forall|a: int| 0 <= a < i ==> p@[a] == a,
        decreases POINT_COUNT - i,
    {
        p.push(i);
        i = i + 1;
    }
    let ghost start = p@;
    assert(start =~= identity(POINT_COUNT as nat));
    permute(&mut p, POINT_COUNT);
    proof {
        lemma_reordered_permutation(start, p@, POINT_COUNT as nat);
    }
    p
}

/// The table cell of lattice coordinate `i + d`.
fn lattice_cell(i: i32, d: usize) -> (r: usize)
    requires
        d <= 1,
    ensures
        r < POINT_COUNT,
        r as int == cell(i + d),
{
    // A multiple of the table size that makes the coordinate non-negative.
    let shifted: i64 = i as i64 + 0x8000_0000;
    let low: usize = ((shifted as u64) % 256) as usize;
    proof {
        let k = 0x80_0000int;
        assert(shifted == i + 256 * k);
        vstd::arithmetic::div_mod::lemma_mod_multiples_vanish(k, i + d, 256);
        vstd::arithmetic::div_mod::lemma_add_mod_noop(shifted as int, d as int, 256);
        assert(cell(i + d) == (shifted + d) % 256);
    }
    (low + d) % POINT_COUNT
}

} // verus!
