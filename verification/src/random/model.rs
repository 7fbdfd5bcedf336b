//! The mathematical model of integer sampling.
//!
//! A sampler reads a fixed stream of 64-bit words through a cursor and keeps
//! three queues of narrow values already cut from words it has drawn. Every
//! sampling operation is a function from such a state to a new state and a
//! result; the functions here define them.
use vstd::arithmetic::div_mod::{
    lemma_div_minus_one, lemma_div_multiples_vanish, lemma_fundamental_div_mod,
    lemma_fundamental_div_mod_converse, lemma_mod_multiples_basic,
};
use vstd::prelude::*;
use vstd::seq_lib::to_multiset_update;

verus! {

/// Why a sampling operation gave no value.
#[derive(Clone, Copy, Debug, PartialEq, Eq, Structural)]
pub enum SampleError {
    /// The range is empty: its start is not below its end.
    InvalidRange,
    /// The range holds fewer values than the distinct samples asked for.
    RangeTooSmall,
    /// The retry limit was reached before a draw was accepted.
    RetryLimit,
}

/// The width of a raw draw.
#[derive(Clone, Copy, Debug, PartialEq, Eq, Structural)]
pub enum Width {
    W8,
    W16,
    W32,
    W64,
    W128,
}

/// How many draws in a row may be turned down before an operation gives up.
pub const RETRY_LIMIT: u32 = 65536;

impl Width {
    /// The number of values of this width.
    pub open spec fn modulus(self) -> nat {
        match self {
            Width::W8 => 0x100,
            Width::W16 => 0x1_0000,
            Width::W32 => 0x1_0000_0000,
            Width::W64 => 0x1_0000_0000_0000_0000,
            Width::W128 => 0x1_0000_0000_0000_0000_0000_0000_0000_0000nat,
        }
    }
}

/// The width of a pointer-sized draw on this machine.
pub open spec fn pointer_width() -> Width {
    if usize::BITS == 64 {
        Width::W64
    } else {
        Width::W32
    }
}

/// The abstract state of a sampler.
pub struct SamplerView {
    /// Position of the next word in the stream.
    pub pos: nat,
    /// 8-bit values cut from a word and not yet handed out, next one first.
    pub queue8: Seq<nat>,
    /// 16-bit values cut from a word and not yet handed out, next one first.
    pub queue16: Seq<nat>,
    /// 32-bit values cut from a word and not yet handed out, next one first.
    pub queue32: Seq<nat>,
}

/// The lowest `n` digits of `v` in base `unit`, least significant first.
pub open spec fn slices(v: nat, unit: nat, n: nat) -> Seq<nat>
    decreases n,
{
    if n == 0 {
        Seq::empty()
    } else {
        seq![v % unit].add(slices(v / unit, unit, (n - 1) as nat))
    }
}

/// A queue after its first value is taken, and that value; a fresh word is
/// cut into `n` values where the queue is empty.
pub open spec fn take_narrow(queue: Seq<nat>, fresh: u64, unit: nat, n: nat) -> (Seq<nat>, nat) {
    if queue.len() > 0 {
        (queue.drop_first(), queue[0])
    } else {
        let cut = slices(fresh as nat, unit, n);
        (cut.drop_first(), cut[0])
    }
}

/// One raw draw of width `w`: the new state and the value drawn.
///
/// Narrow draws are served from their queue and take a word from the stream
/// only where the queue is empty; a 64-bit draw is the next word; a 128-bit
/// draw is two words, the first one in the high half.
pub open spec fn draw(src: spec_fn(nat) -> u64, v: SamplerView, w: Width) -> (SamplerView, nat) {
    let used: nat = match w {
        Width::W8 => if v.queue8.len() > 0 { 0 } else { 1 },
        Width::W16 => if v.queue16.len() > 0 { 0 } else { 1 },
        Width::W32 => if v.queue32.len() > 0 { 0 } else { 1 },
        Width::W64 => 1,
        Width::W128 => 2,
    };
    let fresh = src(v.pos);
    match w {
        Width::W8 => {
            let (queue, x) = take_narrow(v.queue8, fresh, 0x100, 8);
            (SamplerView { pos: v.pos + used, queue8: queue, ..v }, x)
        },
        Width::W16 => {
            let (queue, x) = take_narrow(v.queue16, fresh, 0x1_0000, 4);
            (SamplerView { pos: v.pos + used, queue16: queue, ..v }, x)
        },
        Width::W32 => {
            let (queue, x) = take_narrow(v.queue32, fresh, 0x1_0000_0000, 2);
            (SamplerView { pos: v.pos + used, queue32: queue, ..v }, x)
        },
        Width::W64 => (SamplerView { pos: v.pos + used, ..v }, fresh as nat),
        Width::W128 => (
            SamplerView { pos: v.pos + used, ..v },
            (fresh as nat) * 0x1_0000_0000_0000_0000 + src(v.pos + 1) as nat,
        ),
    }
}

/// The largest multiple of `size` that is at most the number of values of
/// width `w`. Raw draws below it are accepted; the rest are turned down, so
/// that every remainder modulo `size` is reached by equally many draws.
pub open spec fn accept_limit(w: Width, size: nat) -> nat {
    (w.modulus() / size) * size
}

/// Rejection sampling below `size`: raw draws of width `w` are taken until
/// one is under the accept limit, at most `fuel` of them. Gives the state
/// after the last draw and the accepted draw reduced modulo `size`.
pub open spec fn draw_below(
    src: spec_fn(nat) -> u64,
    v: SamplerView,
    w: Width,
    size: nat,
    fuel: nat,
) -> (SamplerView, Option<nat>)
    decreases fuel,
{
    if fuel == 0 {
        (v, None)
    } else {
        let (next, x) = draw(src, v, w);
        if x < accept_limit(w, size) {
            (next, Some(x % size))
        } else {
            draw_below(src, next, w, size, (fuel - 1) as nat)
        }
    }
}

/// One sample from `[start, end)` with raw draws of width `w`.
///
/// An empty range is an error, a range of one value is answered without a
/// draw, and any other by rejection sampling.
pub open spec fn draw_in_range(
    src: spec_fn(nat) -> u64,
    v: SamplerView,
    w: Width,
    start: int,
    end: int,
) -> (SamplerView, Result<int, SampleError>) {
    if start >= end {
        (v, Err(SampleError::InvalidRange))
    } else if end - start == 1 {
        (v, Ok(start))
    } else {
        let (next, found) = draw_below(src, v, w, (end - start) as nat, RETRY_LIMIT as nat);
        match found {
            Some(x) => (next, Ok(start + x)),
            None => (next, Err(SampleError::RetryLimit)),
        }
    }
}

/// Every digit that `slices` cuts is below the base.
pub proof fn lemma_slices_bounded(v: nat, unit: nat, n: nat)
    requires
        unit > 0,
    ensures
        slices(v, unit, n).len() == n,
        forall|i: int| 0 <= i < n ==> 0 <= #[trigger] slices(v, unit, n)[i] < unit,
    decreases n,
{
    if n > 0 {
        lemma_slices_bounded(v / unit, unit, (n - 1) as nat);
    }
}

/// Cutting starts at the lowest digit and goes on with the quotient.
pub proof fn lemma_slices_unfold(v: nat, unit: nat, n: nat)
    requires
        unit > 0,
        n > 0,
    ensures
        slices(v, unit, n).len() == n,
        slices(v, unit, n)[0] == v % unit,
        slices(v, unit, n).drop_first() == slices(v / unit, unit, (n - 1) as nat),
{
    lemma_slices_bounded(v, unit, n);
    assert(slices(v, unit, n).drop_first() =~= slices(v / unit, unit, (n - 1) as nat));
}

/// The accept limit is the largest multiple of `size` that fits the width:
/// a multiple of `size`, at most the modulus, and less than `size` below it.
pub proof fn lemma_accept_limit(w: Width, size: nat)
    requires
        0 < size <= w.modulus(),
    ensures
        accept_limit(w, size) % size == 0,
        w.modulus() - size < accept_limit(w, size) <= w.modulus(),
        accept_limit(w, size) == ((w.modulus() - size) / (size as int)) * size + size,
{
    let m = w.modulus() as int;
    let s = size as int;
    lemma_fundamental_div_mod(m, s);
    lemma_mod_multiples_basic(m / s, s);
    lemma_div_minus_one(m, s);
    assert((m / s - 1) * s + s == (m / s) * s) by (nonlinear_arith);
    assert((m / s) * s == s * (m / s)) by (nonlinear_arith);
}

/// Rejection sampling has no modulo bias: the accepted raw draws are the
/// numbers `q * size + r` with `q` below `accept_limit / size` and `r`
/// below `size`, each once. So every remainder `r` is reached by exactly
/// `accept_limit / size` of them, one for each `q`.
pub proof fn lemma_accepted_draws_are_even(w: Width, size: nat, q: nat, r: nat)
    requires
        0 < size <= w.modulus(),
        q < accept_limit(w, size) / size,
        r < size,
    ensures
        q * size + r < accept_limit(w, size),
        (q * size + r) % size == r,
        (q * size + r) / size == q,
        forall|x: nat|
            x < accept_limit(w, size) ==> #[trigger] (x / size) < accept_limit(w, size) / size,
{
    let limit = accept_limit(w, size);
    let count = w.modulus() / size;
    lemma_div_multiples_vanish(count as int, size as int);
    assert(limit / size == count);
    assert(q * size + r < count * size) by (nonlinear_arith)
        requires
            q < count,
            r < size,
    ;
    lemma_fundamental_div_mod_converse((q * size + r) as int, size as int, q as int, r as int);
    assert forall|x: nat| x < limit implies #[trigger] (x / size) < limit / size by {
        lemma_fundamental_div_mod(x as int, size as int);
        assert(x / size < count) by (nonlinear_arith)
            requires
                x < count * size,
                x == size * (x / size) + x % size,
                0 <= x % size,
                size > 0,
        ;
    }
}

/// What rejection sampling accepts is below `size`.
pub proof fn lemma_draw_below_bounded(
    src: spec_fn(nat) -> u64,
    v: SamplerView,
    w: Width,
    size: nat,
    fuel: nat,
)
    requires
        size > 0,
    ensures
        draw_below(src, v, w, size, fuel).1 matches Some(x) ==> x < size,
    decreases fuel,
{
    if fuel > 0 {
        let (next, x) = draw(src, v, w);
        if x >= accept_limit(w, size) {
            lemma_draw_below_bounded(src, next, w, size, (fuel - 1) as nat);
        }
    }
}

/// A sample from a range lies in the range, and the only errors are an
/// empty range and, for ranges of two or more values, the retry limit.
pub proof fn lemma_draw_in_range_bounded(
    src: spec_fn(nat) -> u64,
    v: SamplerView,
    w: Width,
    start: int,
    end: int,
)
    ensures
        match draw_in_range(src, v, w, start, end).1 {
            Ok(x) => start <= x < end,
            Err(e) => if start >= end {
                e == SampleError::InvalidRange
            } else {
                e == SampleError::RetryLimit && end - start >= 2
            },
        },
{
    if start < end {
        lemma_draw_below_bounded(src, v, w, (end - start) as nat, RETRY_LIMIT as nat);
    }
}

/// The sequence with the values at two positions exchanged.
pub open spec fn swapped<T>(s: Seq<T>, a: int, b: int) -> Seq<T> {
    s.update(a, s[b]).update(b, s[a])
}

/// The Fisher-Yates shuffle of the first `i` values of `s`: the last of them
/// is exchanged with one at a position sampled from `[0, i)`, then the first
/// `i - 1` are shuffled. Gives the state after the last draw, the sequence,
/// and the error if a draw gave up; the sequence then stays as it was at
/// that draw.
pub open spec fn shuffled<T>(src: spec_fn(nat) -> u64, v: SamplerView, s: Seq<T>, i: nat) -> (
    SamplerView,
    Seq<T>,
    Option<SampleError>,
)
    decreases i,
{
    if i <= 1 {
        (v, s, None)
    } else {
        let (next, pick) = draw_in_range(src, v, pointer_width(), 0, i as int);
        match pick {
            Ok(j) => shuffled(src, next, swapped(s, i - 1, j), (i - 1) as nat),
            Err(e) => (next, s, Some(e)),
        }
    }
}

/// Exchanging two values keeps the multiset of values.
pub proof fn lemma_swapped_is_permutation<T>(s: Seq<T>, a: int, b: int)
    requires
        0 <= a < s.len(),
        0 <= b < s.len(),
    ensures
        swapped(s, a, b).len() == s.len(),
        swapped(s, a, b).to_multiset() == s.to_multiset(),
{
    let mid = s.update(a, s[b]);
    to_multiset_update(s, a, s[b]);
    to_multiset_update(mid, b, s[a]);
    s.to_multiset_ensures();
    assert(s.contains(s[a]));
    assert(s.contains(s[b]));
    assert(swapped(s, a, b).to_multiset() =~= s.to_multiset());
}

/// A shuffle gives a permutation: the same values, as often as before,
/// whether or not it ran to its end. It can only fail by the retry limit.
pub proof fn lemma_shuffled_is_permutation<T>(
    src: spec_fn(nat) -> u64,
    v: SamplerView,
    s: Seq<T>,
    i: nat,
)
    requires
        i <= s.len(),
    ensures
        shuffled(src, v, s, i).1.len() == s.len(),
        shuffled(src, v, s, i).1.to_multiset() == s.to_multiset(),
        shuffled(src, v, s, i).2 matches Some(e) ==> e == SampleError::RetryLimit,
    decreases i,
{
    if i > 1 {
        let (next, pick) = draw_in_range(src, v, pointer_width(), 0, i as int);
        lemma_draw_in_range_bounded(src, v, pointer_width(), 0, i as int);
        match pick {
            Ok(j) => {
                lemma_swapped_is_permutation(s, i - 1, j);
                lemma_shuffled_is_permutation(src, next, swapped(s, i - 1, j), (i - 1) as nat);
            },
            Err(e) => {},
        }
    }
}

/// The Fisher-Yates exchanges of the first `i` values of `s` with given
/// picks: the last of them is exchanged with the one at the first pick,
/// then the first `i - 1` are exchanged with the picks that follow.
pub open spec fn exchanged<T>(s: Seq<T>, picks: Seq<int>, i: nat) -> Seq<T>
    decreases i,
{
    if i <= 1 {
        s
    } else {
        exchanged(swapped(s, i - 1, picks[0]), picks.drop_first(), (i - 1) as nat)
    }
}

/// The picks are what a shuffle of `i` values can draw: one for each step,
/// the first among `i` positions, the next among `i - 1`, down to 2.
pub open spec fn picks_for(picks: Seq<int>, i: nat) -> bool {
    &&& i >= 1 ==> picks.len() == i - 1
    &&& i == 0 ==> picks.len() == 0
    &&& forall|k: int| 0 <= k < picks.len() ==> 0 <= #[trigger] picks[k] < i - k
}

/// The positions that a shuffle of `i` values draws, in the order drawn,
/// up to the first draw that gives up.
pub open spec fn drawn_picks(src: spec_fn(nat) -> u64, v: SamplerView, i: nat) -> Seq<int>
    decreases i,
{
    if i <= 1 {
        Seq::empty()
    } else {
        let (next, pick) = draw_in_range(src, v, pointer_width(), 0, i as int);
        match pick {
            Ok(j) => seq![j].add(drawn_picks(src, next, (i - 1) as nat)),
            Err(_) => Seq::empty(),
        }
    }
}

/// A shuffle that runs to its end makes one draw for each step and gives
/// the exchanges with the positions drawn.
pub proof fn lemma_shuffled_is_exchanged<T>(
    src: spec_fn(nat) -> u64,
    v: SamplerView,
    s: Seq<T>,
    i: nat,
)
    requires
        shuffled(src, v, s, i).2 is None,
    ensures
        picks_for(drawn_picks(src, v, i), i),
        shuffled(src, v, s, i).1 == exchanged(s, drawn_picks(src, v, i), i),
    decreases i,
{
    if i > 1 {
        let (next, pick) = draw_in_range(src, v, pointer_width(), 0, i as int);
        lemma_draw_in_range_bounded(src, v, pointer_width(), 0, i as int);
        let j = pick->Ok_0;
        let rest = drawn_picks(src, next, (i - 1) as nat);
        let picks = drawn_picks(src, v, i);
        lemma_shuffled_is_exchanged(src, next, swapped(s, i - 1, j), (i - 1) as nat);
        assert(picks.drop_first() =~= rest);
        assert(picks[0] == j);
        assert forall|k: int| 0 <= k < picks.len() implies 0 <= #[trigger] picks[k] < i - k by {
            if k > 0 {
                assert(picks[k] == rest[k - 1]);
            }
        }
    }
}

/// The exchanges of the first `i` values leave the values from position
/// `i` on where they are, and bring the value at the first pick to the
/// last of the `i` positions.
pub proof fn lemma_exchanged_places<T>(s: Seq<T>, picks: Seq<int>, i: nat)
    requires
        i <= s.len(),
        picks_for(picks, i),
    ensures
        exchanged(s, picks, i).len() == s.len(),
        forall|x: int| i <= x < s.len() ==> #[trigger] exchanged(s, picks, i)[x] == s[x],
        i >= 2 ==> exchanged(s, picks, i)[i - 1] == s[picks[0]],
    decreases i,
{
    if i > 1 {
        let first = swapped(s, i - 1, picks[0]);
        let rest = picks.drop_first();
        assert(picks_for(rest, (i - 1) as nat)) by {
            assert forall|k: int| 0 <= k < rest.len() implies 0 <= #[trigger] rest[k] < i - 1
                - k by {
                assert(rest[k] == picks[k + 1]);
            }
        }
        lemma_exchanged_places(first, rest, (i - 1) as nat);
        let after = exchanged(first, rest, (i - 1) as nat);
        assert(exchanged(s, picks, i) == after);
        assert(0 <= picks[0] < i);
        assert(first.len() == s.len());
        assert(first[i - 1] == s[picks[0]]);
        assert(after[i - 1] == first[i - 1]);
        assert forall|x: int| i <= x < s.len() implies exchanged(s, picks, i)[x] == s[x] by {
            assert(after[x] == first[x]);
            assert(first[x] == s[x]);
        }
    }
}

/// Exchanging two of distinct values leaves distinct values.
pub proof fn lemma_swapped_keeps_distinct<T>(s: Seq<T>, a: int, b: int)
    requires
        s.no_duplicates(),
        0 <= a < s.len(),
        0 <= b < s.len(),
    ensures
        swapped(s, a, b).no_duplicates(),
        swapped(s, a, b).len() == s.len(),
{
    let after = swapped(s, a, b);
    assert forall|x: int, y: int|
        0 <= x < after.len() && 0 <= y < after.len() && x != y implies after[x] != after[y] by {
        let from = |z: int|
            if z == a {
                b
            } else if z == b {
                a
            } else {
                z
            };
        assert(after[x] == s[from(x)]);
        assert(after[y] == s[from(y)]);
    }
}

/// The value `x` is among the first `i` values of `s`.
pub open spec fn among_first<T>(s: Seq<T>, i: int, x: T) -> bool {
    exists|y: int| 0 <= y < i && #[trigger] s[y] == x
}

/// Every arrangement of the first `i` of distinct values is given by some
/// picks: with the one law below, by exactly one tuple of picks.
pub proof fn lemma_exchanged_reaches<T>(s: Seq<T>, t: Seq<T>, i: nat) -> (picks: Seq<int>)
    requires
        s.no_duplicates(),
        t.no_duplicates(),
        s.len() == t.len(),
        i <= s.len(),
        forall|x: int| i <= x < s.len() ==> s[x] == t[x],
        forall|x: int| 0 <= x < i ==> among_first(s, i as int, #[trigger] t[x]),
    ensures
        picks_for(picks, i),
        exchanged(s, picks, i) == t,
    decreases i,
{
    if i <= 1 {
        if i == 1 {
            assert(among_first(s, 1, t[0]));
            let y = choose|y: int| 0 <= y < 1 && #[trigger] s[y] == t[0];
            assert(s[0] == t[0]);
        }
        assert(s =~= t);
        Seq::empty()
    } else {
        assert(among_first(s, i as int, t[i - 1]));
        let j = choose|y: int| 0 <= y < i && #[trigger] s[y] == t[i - 1];
        let first = swapped(s, i - 1, j);
        lemma_swapped_keeps_distinct(s, i - 1, j);
        assert forall|x: int| 0 <= x < i - 1 implies among_first(first, i - 1, #[trigger] t[x]) by {
            assert(among_first(s, i as int, t[x]));
            let y0 = choose|y: int| 0 <= y < i && #[trigger] s[y] == t[x];
            assert(y0 != j);
            if y0 == i - 1 {
                assert(first[j] == t[x]);
            } else {
                assert(first[y0] == t[x]);
            }
        }
        let rest = lemma_exchanged_reaches(first, t, (i - 1) as nat);
        let picks = seq![j].add(rest);
        assert(picks.drop_first() =~= rest);
        assert(picks[0] == j);
        assert forall|k: int| 0 <= k < picks.len() implies 0 <= #[trigger] picks[k] < i - k by {
            if k > 0 {
                assert(picks[k] == rest[k - 1]);
            }
        }
        picks
    }
}

/// Different picks give different arrangements of distinct values: each
/// arrangement that a shuffle can give comes from one tuple of picks only.
pub proof fn lemma_exchanged_injective<T>(s: Seq<T>, p: Seq<int>, q: Seq<int>, i: nat)
    requires
        s.no_duplicates(),
        i <= s.len(),
        picks_for(p, i),
        picks_for(q, i),
        exchanged(s, p, i) == exchanged(s, q, i),
    ensures
        p == q,
    decreases i,
{
    if i > 1 {
        lemma_exchanged_places(s, p, i);
        lemma_exchanged_places(s, q, i);
        assert(s[p[0]] == s[q[0]]);
        assert(p[0] == q[0]);
        let first = swapped(s, i - 1, p[0]);
        lemma_swapped_keeps_distinct(s, i - 1, p[0]);
        let pr = p.drop_first();
        let qr = q.drop_first();
        assert(picks_for(pr, (i - 1) as nat)) by {
            assert forall|k: int| 0 <= k < pr.len() implies 0 <= #[trigger] pr[k] < i - 1 - k by {
                assert(pr[k] == p[k + 1]);
            }
        }
        assert(picks_for(qr, (i - 1) as nat)) by {
            assert forall|k: int| 0 <= k < qr.len() implies 0 <= #[trigger] qr[k] < i - 1 - k by {
                assert(qr[k] == q[k + 1]);
            }
        }
        lemma_exchanged_injective(first, pr, qr, (i - 1) as nat);
        assert(p =~= seq![p[0]].add(pr));
        assert(q =~= seq![q[0]].add(qr));
    } else {
        assert(p =~= q);
    }
}

/// The `n` consecutive integers from `start` on.
pub open spec fn consecutive(start: int, n: nat) -> Seq<int> {
    Seq::new(n, |i: int| start + i)
}

/// Independent samples from `[start, end)` appended to `acc` until it holds
/// `k` values. Stops at the first draw that fails.
pub open spec fn draw_repeated(
    src: spec_fn(nat) -> u64,
    v: SamplerView,
    w: Width,
    start: int,
    end: int,
    k: nat,
    acc: Seq<int>,
) -> (SamplerView, Result<Seq<int>, SampleError>)
    decreases k - acc.len(),
{
    if acc.len() >= k {
        (v, Ok(acc))
    } else {
        let (next, pick) = draw_in_range(src, v, w, start, end);
        match pick {
            Ok(x) => draw_repeated(src, next, w, start, end, k, acc.push(x)),
            Err(e) => (next, Err(e)),
        }
    }
}

/// Samples from `[start, end)` appended to `acc` until it holds `k` values,
/// where a sample that `acc` already holds is dropped. `misses` such drops
/// in a row are still allowed; one more gives up.
pub open spec fn draw_distinct(
    src: spec_fn(nat) -> u64,
    v: SamplerView,
    w: Width,
    start: int,
    end: int,
    k: nat,
    acc: Seq<int>,
    misses: nat,
) -> (SamplerView, Result<Seq<int>, SampleError>)
    decreases k - acc.len(), misses,
{
    if acc.len() >= k {
        (v, Ok(acc))
    } else {
        let (next, pick) = draw_in_range(src, v, w, start, end);
        match pick {
            Ok(x) => if !acc.contains(x) {
                draw_distinct(src, next, w, start, end, k, acc.push(x), RETRY_LIMIT as nat)
            } else if misses == 0 {
                (next, Err(SampleError::RetryLimit))
            } else {
                draw_distinct(src, next, w, start, end, k, acc, (misses - 1) as nat)
            },
            Err(e) => (next, Err(e)),
        }
    }
}

/// `k` samples from `[start, end)`.
///
/// With repeats allowed they are independent samples. Without, a range of
/// fewer than `k` values is an error; a range of more than `5 * k` values is
/// sampled until `k` distinct values are found, in the order found; a
/// smaller one is written out in full and shuffled, and its first `k`
/// values are the result.
pub open spec fn draw_k(
    src: spec_fn(nat) -> u64,
    v: SamplerView,
    w: Width,
    start: int,
    end: int,
    k: nat,
    can_repeat: bool,
) -> (SamplerView, Result<Seq<int>, SampleError>) {
    if start >= end {
        (v, Err(SampleError::InvalidRange))
    } else if can_repeat {
        draw_repeated(src, v, w, start, end, k, Seq::empty())
    } else if end - start < k {
        (v, Err(SampleError::RangeTooSmall))
    } else if end - start > 5 * k {
        draw_distinct(src, v, w, start, end, k, Seq::empty(), RETRY_LIMIT as nat)
    } else {
        let size = (end - start) as nat;
        let (next, all, failed) = shuffled(src, v, consecutive(start, size), size);
        match failed {
            None => (next, Ok(all.take(k as int))),
            Some(e) => (next, Err(e)),
        }
    }
}

/// Every value of `s` lies in `[start, end)`.
pub open spec fn all_within(s: Seq<int>, start: int, end: int) -> bool {
    forall|i: int| 0 <= i < s.len() ==> start <= #[trigger] s[i] < end
}

/// What `k` samples from a range have to be: `k` values of the range, and
/// pairwise distinct where repeats are not allowed.
pub open spec fn valid_picks(s: Seq<int>, start: int, end: int, k: nat, can_repeat: bool) -> bool {
    &&& s.len() == k
    &&& all_within(s, start, end)
    &&& !can_repeat ==> s.no_duplicates()
}

/// Independent samples fill up to `k` values of the range, or give up.
pub proof fn lemma_draw_repeated_valid(
    src: spec_fn(nat) -> u64,
    v: SamplerView,
    w: Width,
    start: int,
    end: int,
    k: nat,
    acc: Seq<int>,
)
    requires
        start < end,
        acc.len() <= k,
        all_within(acc, start, end),
    ensures
        match draw_repeated(src, v, w, start, end, k, acc).1 {
            Ok(s) => valid_picks(s, start, end, k, true),
            Err(e) => e == SampleError::RetryLimit,
        },
    decreases k - acc.len(),
{
    if acc.len() < k {
        let (next, pick) = draw_in_range(src, v, w, start, end);
        lemma_draw_in_range_bounded(src, v, w, start, end);
        if let Ok(x) = pick {
            lemma_draw_repeated_valid(src, next, w, start, end, k, acc.push(x));
        }
    }
}

/// Distinct samples fill up to `k` distinct values of the range, or give up.
pub proof fn lemma_draw_distinct_valid(
    src: spec_fn(nat) -> u64,
    v: SamplerView,
    w: Width,
    start: int,
    end: int,
    k: nat,
    acc: Seq<int>,
    misses: nat,
)
    requires
        start < end,
        acc.len() <= k,
        all_within(acc, start, end),
        acc.no_duplicates(),
    ensures
        match draw_distinct(src, v, w, start, end, k, acc, misses).1 {
            Ok(s) => valid_picks(s, start, end, k, false),
            Err(e) => e == SampleError::RetryLimit,
        },
    decreases k - acc.len(), misses,
{
    if acc.len() < k {
        let (next, pick) = draw_in_range(src, v, w, start, end);
        lemma_draw_in_range_bounded(src, v, w, start, end);
        if let Ok(x) = pick {
            if !acc.contains(x) {
                assert(acc.push(x).no_duplicates());
                lemma_draw_distinct_valid(
                    src,
                    next,
                    w,
                    start,
                    end,
                    k,
                    acc.push(x),
                    RETRY_LIMIT as nat,
                );
            } else if misses > 0 {
                lemma_draw_distinct_valid(src, next, w, start, end, k, acc, (misses - 1) as nat);
            }
        }
    }
}

/// A permutation of distinct values of a range holds distinct values of
/// the range.
pub proof fn lemma_permutation_keeps_distinct(all: Seq<int>, p: Seq<int>, start: int, end: int)
    requires
        all.no_duplicates(),
        all_within(all, start, end),
        p.to_multiset() == all.to_multiset(),
    ensures
        p.no_duplicates(),
        all_within(p, start, end),
{
    all.lemma_multiset_has_no_duplicates();
    p.lemma_multiset_has_no_duplicates_conv();
    all.to_multiset_ensures();
    p.to_multiset_ensures();
    assert forall|i: int| 0 <= i < p.len() implies start <= #[trigger] p[i] < end by {
        assert(p.contains(p[i]));
        assert(all.to_multiset().count(p[i]) > 0);
        assert(all.contains(p[i]));
    }
}

/// `k` samples are `k` values of the range, distinct where repeats are not
/// allowed. An empty range is refused, and so is, without repeats, a range
/// of fewer than `k` values; any other error is the retry limit.
pub proof fn lemma_draw_k_valid(
    src: spec_fn(nat) -> u64,
    v: SamplerView,
    w: Width,
    start: int,
    end: int,
    k: nat,
    can_repeat: bool,
)
    ensures
        match draw_k(src, v, w, start, end, k, can_repeat).1 {
            Ok(s) => valid_picks(s, start, end, k, can_repeat),
            Err(e) => if start >= end {
                e == SampleError::InvalidRange
            } else if !can_repeat && end - start < k {
                e == SampleError::RangeTooSmall
            } else {
                e == SampleError::RetryLimit
            },
        },
{
    if start >= end {
    } else if can_repeat {
        lemma_draw_repeated_valid(src, v, w, start, end, k, Seq::empty());
    } else if end - start < k {
    } else if end - start > 5 * k {
        lemma_draw_distinct_valid(src, v, w, start, end, k, Seq::empty(), RETRY_LIMIT as nat);
    } else {
        let size = (end - start) as nat;
        let all = consecutive(start, size);
        let (next, p, failed) = shuffled(src, v, all, size);
        lemma_shuffled_is_permutation(src, v, all, size);
        lemma_permutation_keeps_distinct(all, p, start, end);
        if failed.is_none() {
            let s = p.take(k as int);
            assert(s.no_duplicates());
            assert(all_within(s, start, end));
        }
    }
}

/// A shuffle moves positions, whatever the values are: mapping the values
/// before or after it gives the same.
pub proof fn lemma_shuffled_map<A, B>(
    src: spec_fn(nat) -> u64,
    v: SamplerView,
    s: Seq<A>,
    i: nat,
    f: spec_fn(A) -> B,
)
    requires
        i <= s.len(),
    ensures
        shuffled(src, v, s.map_values(f), i) == (
            shuffled(src, v, s, i).0,
            shuffled(src, v, s, i).1.map_values(f),
            shuffled(src, v, s, i).2,
        ),
    decreases i,
{
    if i > 1 {
        let (next, pick) = draw_in_range(src, v, pointer_width(), 0, i as int);
        lemma_draw_in_range_bounded(src, v, pointer_width(), 0, i as int);
        if let Ok(j) = pick {
            assert(swapped(s.map_values(f), i - 1, j) =~= swapped(s, i - 1, j).map_values(f));
            lemma_shuffled_map(src, next, swapped(s, i - 1, j), (i - 1) as nat, f);
        }
    }
}

/// `k` positions in a sequence of `len` values.
///
/// More distinct positions than the sequence has are refused as a range too
/// small, also for an empty sequence; otherwise the positions are `k`
/// samples from `[0, len)`.
pub open spec fn draw_positions(
    src: spec_fn(nat) -> u64,
    v: SamplerView,
    len: nat,
    k: nat,
    can_repeat: bool,
) -> (SamplerView, Result<Seq<int>, SampleError>) {
    if !can_repeat && k > len {
        (v, Err(SampleError::RangeTooSmall))
    } else {
        draw_k(src, v, pointer_width(), 0, len as int, k, can_repeat)
    }
}

} // verus!
