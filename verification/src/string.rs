//! Exact string matching with the prefix function and the Z-function.
use crate::element::{exact_clone, exact_eq};
use vstd::prelude::*;

verus! {

/// The first `k` values of `s` are the `k` values of `t` that end before
/// position `e`.
pub open spec fn prefix_ends_at<T>(s: Seq<T>, t: Seq<T>, e: int, k: int) -> bool {
    &&& 0 <= k <= s.len()
    &&& k <= e <= t.len()
    &&& forall|i: int| 0 <= i < k ==> #[trigger] s[i] == t[e - k + i]
}

/// `k` is the length of a border of the first `e` values of `s`: a prefix
/// of them, shorter than them, that is also their suffix.
pub open spec fn is_border<T>(s: Seq<T>, e: int, k: int) -> bool {
    k < e && prefix_ends_at(s, s, e, k)
}

/// `k` is the length of the longest border of the first `e` values of `s`.
pub open spec fn longest_border<T>(s: Seq<T>, e: int, k: int) -> bool {
    &&& is_border(s, e, k)
    &&& forall|m: int| is_border(s, e, m) ==> m <= k
}

/// `k` is the length of the longest prefix of `s` that ends `t` before
/// position `e`.
pub open spec fn longest_match<T>(s: Seq<T>, t: Seq<T>, e: int, k: int) -> bool {
    &&& prefix_ends_at(s, t, e, k)
    &&& forall|m: int| prefix_ends_at(s, t, e, m) ==> m <= k
}

/// `k` is the length of the longest prefix of `s`, among those of at most
/// `cap` values, that ends `t` before position `e`.
pub open spec fn longest_match_within<T>(s: Seq<T>, t: Seq<T>, e: int, k: int, cap: int) -> bool {
    &&& prefix_ends_at(s, t, e, k)
    &&& forall|m: int| m <= cap && #[trigger] prefix_ends_at(s, t, e, m) ==> m <= k
}

/// The whole of `s`, which is not empty, stands in `t` from position `p`
/// on.
pub open spec fn occurs_at<T>(s: Seq<T>, t: Seq<T>, p: int) -> bool {
    &&& s.len() > 0
    &&& 0 <= p
    &&& p + s.len() <= t.len()
    &&& forall|i: int| 0 <= i < s.len() ==> #[trigger] s[i] == t[p + i]
}

/// A border of a prefix that ends `t` ends `t` too.
proof fn lemma_border_of_match<T>(s: Seq<T>, t: Seq<T>, e: int, j: int, k: int)
    requires
        prefix_ends_at(s, t, e, j),
        is_border(s, j, k),
    ensures
        prefix_ends_at(s, t, e, k),
{
    assert forall|i: int| 0 <= i < k implies #[trigger] s[i] == t[e - k + i] by {
        assert(s[i] == s[j - k + i]);
        let q = j - k + i;
        assert(s[q] == t[e - j + q]);
    }
}

/// Of two prefixes that end `t` at one position, the shorter is a border
/// of the longer.
proof fn lemma_match_is_border<T>(s: Seq<T>, t: Seq<T>, e: int, j: int, k: int)
    requires
        prefix_ends_at(s, t, e, j),
        prefix_ends_at(s, t, e, k),
        k < j,
    ensures
        is_border(s, j, k),
{
    assert forall|i: int| 0 <= i < k implies #[trigger] s[i] == s[j - k + i] by {
        let q = j - k + i;
        assert(s[q] == t[e - j + q]);
        assert(s[i] == t[e - k + i]);
    }
}

/// A prefix that ends `t` grows by one value where the next values agree.
proof fn lemma_match_grows<T>(s: Seq<T>, t: Seq<T>, e: int, k: int)
    requires
        prefix_ends_at(s, t, e, k),
        k < s.len(),
        e < t.len(),
        s[k] == t[e],
    ensures
        prefix_ends_at(s, t, e + 1, k + 1),
{
    assert forall|i: int| 0 <= i < k + 1 implies #[trigger] s[i] == t[e + 1 - (k + 1) + i] by {
        if i < k {
            assert(s[i] == t[e - k + i]);
        }
    }
}

/// A prefix of at least one value that ends `t` is a shorter one grown by
/// one value.
proof fn lemma_match_shrinks<T>(s: Seq<T>, t: Seq<T>, e: int, k: int)
    requires
        prefix_ends_at(s, t, e + 1, k + 1),
        k >= 0,
    ensures
        prefix_ends_at(s, t, e, k),
        s[k] == t[e],
{
    assert forall|i: int| 0 <= i < k implies #[trigger] s[i] == t[e - k + i] by {
        assert(s[i] == t[e + 1 - (k + 1) + i]);
    }
    assert(s[k] == t[e + 1 - (k + 1) + k]);
}

/// Going from a prefix of `s` that ends `t` before position `e` down to
/// the longest that can grow by the value `t[e]`: the step of the prefix
/// function. Only prefixes shorter than `cap` count. `j` is the prefix to
/// start from, which no longer prefix that can grow ends `t`.
fn longest_growing<T: PartialEq>(
    s: &Vec<T>,
    pref_func: &Vec<usize>,
    t: &Vec<T>,
    e: usize,
    j: usize,
    cap: Ghost<int>,
) -> (k: usize)
    requires
        exact_eq::<T>(),
        pref_func@.len() >= j,
        forall|q: int| 0 <= q < j ==> longest_border(s@, q + 1, #[trigger] pref_func@[q] as int),
        e < t@.len(),
        j < cap@ <= s@.len(),
        prefix_ends_at(s@, t@, e as int, j as int),
        forall|m: int|
            j < m < cap@ && prefix_ends_at(s@, t@, e as int, m) ==> s@[m] != t@[e as int],
    ensures
        longest_match_within(s@, t@, e + 1, k as int, cap@),
        k <= j + 1,
{
    let n = s.len();
    let mut j = j;
    while j > 0 && s[j] != t[e]
        invariant
            exact_eq::<T>(),
            pref_func@.len() >= j,
            forall|q: int|
                0 <= q < j ==> longest_border(s@, q + 1, #[trigger] pref_func@[q] as int),
            e < t@.len(),
            n == s@.len(),
            j < cap@ <= s@.len(),
            prefix_ends_at(s@, t@, e as int, j as int),
            forall|m: int|
                j < m < cap@ && prefix_ends_at(s@, t@, e as int, m) ==> s@[m] != t@[e as int],
        decreases j,
    {
        let next = pref_func[j - 1];
        proof {
            assert(longest_border(s@, j as int, next as int));
            lemma_border_of_match(s@, t@, e as int, j as int, next as int);
            assert forall|m: int|
                next < m < cap@ && prefix_ends_at(s@, t@, e as int, m) implies s@[m]
                != t@[e as int] by {
                if m < j {
                    lemma_match_is_border(s@, t@, e as int, j as int, m);
                }
            }
        }
        j = next;
    }
    if s[j] == t[e] {
        proof {
            lemma_match_grows(s@, t@, e as int, j as int);
            let end = e + 1;
            assert forall|m: int| m <= cap@ && #[trigger] prefix_ends_at(s@, t@, end, m) implies m
                <= j + 1 by {
                if m > j + 1 {
                    lemma_match_shrinks(s@, t@, e as int, m - 1);
                }
            }
        }
        j + 1
    } else {
        proof {
            let end = e + 1;
            assert forall|m: int| m <= cap@ && #[trigger] prefix_ends_at(s@, t@, end, m) implies m
                <= 0 by {
                if m > 0 {
                    lemma_match_shrinks(s@, t@, e as int, m - 1);
                }
            }
        }
        0
    }
}

/// The prefix function of a model string, for finding the string in others.
///
/// The prefix function gives, for each position `i`, the length of the
/// longest border of the values up to and with position `i`.
pub struct KMP<T: Clone + PartialEq> {
    pref_func: Vec<usize>,
    s: Vec<T>,
}

impl<T: Clone + PartialEq> KMP<T> {
    /// The model string.
    pub closed spec fn model(&self) -> Seq<T> {
        self.s@
    }

    /// The prefix function of the model string.
    pub closed spec fn prefix_function(&self) -> Seq<usize> {
        self.pref_func@
    }

    /// The representation invariant: the prefix function held is that of
    /// the model string.
    pub open spec fn wf(&self) -> bool {
        &&& self.prefix_function().len() == self.model().len()
        &&& forall|i: int|
            0 <= i < self.model().len() ==> longest_border(
                self.model(),
                i + 1,
                #[trigger] self.prefix_function()[i] as int,
            )
    }

    /// Computes the prefix function of `s` in `O(|s|)` steps.
    pub fn new(s: &Vec<T>) -> (r: Self)
        requires
            exact_eq::<T>(),
            exact_clone::<T>(),
        ensures
            r.wf(),
            r.model() == s@,
    {
        let mut pref_func: Vec<usize> = Vec::new();
        let mut i: usize = 0;
        while i < s.len()
            invariant
                exact_eq::<T>(),
                i <= s@.len(),
                pref_func@.len() == i,
                forall|q: int|
                    0 <= q < i ==> longest_border(s@, q + 1, #[trigger] pref_func@[q] as int),
            decreases s@.len() - i,
        {
            if i == 0 {
                pref_func.push(0);
            } else {
                let j = pref_func[i - 1];
                proof {
                    assert(longest_border(s@, i as int, j as int));
                    assert forall|m: int|
                        j < m < i && prefix_ends_at(s@, s@, i as int, m) implies s@[m]
                        != s@[i as int] by {
                        assert(is_border(s@, i as int, m));
                    }
                }
                let k = longest_growing(s, &pref_func, s, i, j, Ghost(i as int));
                proof {
                    let end = i + 1;
                    assert(is_border(s@, end, k as int));
                    assert forall|m: int| #[trigger] is_border(s@, end, m) implies m <= k by {
                        assert(prefix_ends_at(s@, s@, end, m));
                    }
                }
                pref_func.push(k);
            }
            i += 1;
        }
        let copy = s.clone();
        assert(copy@ =~= s@);
        KMP { pref_func, s: copy }
    }

    /// Returns the prefix function.
    pub fn get_pref_func(&self) -> (r: &Vec<usize>)
        ensures
            r@ == self.prefix_function(),
    {
        &self.pref_func
    }

    /// Returns the model string.
    pub fn get_s(&self) -> (r: &Vec<T>)
        ensures
            r@ == self.model(),
    {
        &self.s
    }

    /// Computes for each position `i` of `t` the length of the longest
    /// prefix of the model string that ends `t` at position `i`, in
    /// `O(|t|)` steps.
    pub fn extend(&self, t: &Vec<T>) -> (r: Vec<usize>)
        requires
            self.wf(),
            exact_eq::<T>(),
            self.model().len() > 0 || t@.len() == 0,
        ensures
            r@.len() == t@.len(),
            forall|i: int|
                0 <= i < t@.len() ==> longest_match(
                    self.model(),
                    t@,
                    i + 1,
                    #[trigger] r@[i] as int,
                ),
    {
        let mut ans: Vec<usize> = Vec::new();
        if t.len() == 0 {
            return ans;
        }
        let mut j: usize = 0;
        let mut i: usize = 0;
        while i < t.len()
            invariant
                self.wf(),
                exact_eq::<T>(),
                self.s@.len() > 0,
                i <= t@.len(),
                ans@.len() == i,
                longest_match(self.s@, t@, i as int, j as int),
                forall|q: int|
                    0 <= q < i ==> longest_match(self.s@, t@, q + 1, #[trigger] ans@[q] as int),
            decreases t@.len() - i,
        {
            if j == self.s.len() {
                let next = self.pref_func[j - 1];
                proof {
                    assert(longest_border(self.s@, j as int, next as int));
                    lemma_border_of_match(self.s@, t@, i as int, j as int, next as int);
                    assert forall|m: int|
                        next < m < self.s@.len() && prefix_ends_at(
                            self.s@,
                            t@,
                            i as int,
                            m,
                        ) implies self.s@[m] != t@[i as int] by {
                        lemma_match_is_border(self.s@, t@, i as int, j as int, m);
                    }
                }
                j = next;
            }
            proof {
                assert forall|m: int|
                    j < m < self.s@.len() && prefix_ends_at(
                        self.s@,
                        t@,
                        i as int,
                        m,
                    ) implies self.s@[m] != t@[i as int] by {}
            }
            j = longest_growing(&self.s, &self.pref_func, t, i, j, Ghost(self.s@.len() as int));
            ans.push(j);
            i += 1;
        }
        ans
    }

    /// Returns the positions at which the model string stands in `t`, in
    /// ascending order.
    pub fn find_occurences(&self, t: &Vec<T>) -> (r: Vec<usize>)
        requires
            self.wf(),
            exact_eq::<T>(),
            self.model().len() > 0 || t@.len() == 0,
        ensures
            forall|p: int| occurs_at(self.model(), t@, p) <==> exists|i: int|
                0 <= i < r@.len() && #[trigger] r@[i] == p,
            forall|a: int, b: int| 0 <= a < b < r@.len() ==> r@[a] < r@[b],
    {
        let mut found: Vec<usize> = Vec::new();
        if t.len() < self.s.len() || t.len() == 0 {
            assert forall|p: int| !#[trigger] occurs_at(self.model(), t@, p) by {}
            return found;
        }
        let ends = self.extend(t);
        let len = self.s.len();
        let mut i: usize = 0;
        while i < t.len()
            invariant
                i <= t@.len(),
                len == self.s@.len(),
                len > 0,
                ends@.len() == t@.len(),
                forall|q: int|
                    0 <= q < t@.len() ==> longest_match(
                        self.s@,
                        t@,
                        q + 1,
                        #[trigger] ends@[q] as int,
                    ),
                forall|p: int|
                    occurs_at(self.s@, t@, p) && p + len <= i <==> exists|q: int|
                        0 <= q < found@.len() && #[trigger] found@[q] == p,
                forall|q: int| 0 <= q < found@.len() ==> #[trigger] found@[q] + len <= i,
                forall|a: int, b: int| 0 <= a < b < found@.len() ==> found@[a] < found@[b],
            decreases t@.len() - i,
        {
            let ghost before = found@;
            let hit = ends[i] == len;
            proof {
                let p = i + 1 - len;
                if hit {
                    assert(prefix_ends_at(self.s@, t@, i + 1, len as int));
                    assert forall|q: int|
                        0 <= q < len implies #[trigger] self.s@[q] == t@[p + q] by {
                        assert(self.s@[q] == t@[i + 1 - len + q]);
                    }
                } else if occurs_at(self.s@, t@, p) {
                    assert forall|q: int| 0 <= q < len implies #[trigger] self.s@[q] == t@[i + 1
                        - len + q] by {
                        assert(self.s@[q] == t@[p + q]);
                    }
                    assert(prefix_ends_at(self.s@, t@, i + 1, len as int));
                }
            }
            if hit {
                found.push(i + 1 - len);
                proof {
                    let p = (i + 1 - len) as int;
                    assert(found@[before.len() as int] == p);
                    assert forall|x: int|
                        occurs_at(self.s@, t@, x) && x + len <= i + 1 implies exists|
                        q: int,
                    |
                        0 <= q < found@.len() && #[trigger] found@[q] == x by {
                        if x + len <= i {
                            let q = choose|q: int|
                                0 <= q < before.len() && #[trigger] before[q] == x;
                            assert(found@[q] == x);
                        } else {
                            assert(found@[before.len() as int] == x);
                        }
                    }
                    assert forall|x: int|
                        (exists|q: int|
                            0 <= q < found@.len() && #[trigger] found@[q] == x) implies occurs_at(
                        self.s@,
                        t@,
                        x,
                    ) && x + len <= i + 1 by {
                        let q = choose|q: int| 0 <= q < found@.len() && #[trigger] found@[q] == x;
                        if q < before.len() {
                            assert(before[q] == x);
                        }
                    }
                }
            }
            i += 1;
        }
        found
    }
}

/// The first `k` values of `s` are the `k` values of `t` from position
/// `i` on.
pub open spec fn common_prefix<T>(s: Seq<T>, t: Seq<T>, i: int, k: int) -> bool {
    &&& 0 <= k <= s.len()
    &&& 0 <= i
    &&& i + k <= t.len()
    &&& forall|q: int| 0 <= q < k ==> #[trigger] s[q] == t[i + q]
}

/// `k` is the length of the longest common prefix of `s` and of `t` from
/// position `i` on: they agree on `k` values, and then one of them ends or
/// they differ.
pub open spec fn longest_common_prefix<T>(s: Seq<T>, t: Seq<T>, i: int, k: int) -> bool {
    &&& common_prefix(s, t, i, k)
    &&& (k == s.len() || i + k == t.len() || s[k] != t[i + k])
}

/// No common prefix is longer than the longest.
pub proof fn lemma_longest_common_prefix_is_longest<T>(
    s: Seq<T>,
    t: Seq<T>,
    i: int,
    k: int,
    m: int,
)
    requires
        longest_common_prefix(s, t, i, k),
        common_prefix(s, t, i, m),
    ensures
        m <= k,
{
    if m > k {
        assert(s[k] == t[i + k]);
    }
}

/// Where `t` from `l` on starts with `window` values of `s`, what is known
/// of `s` at the position `i - l` tells of `t` at the position `i`: a
/// common prefix that ends inside the window is the longest at `i` too.
proof fn lemma_window_copies<T>(s: Seq<T>, t: Seq<T>, l: int, window: int, i: int, k: int)
    requires
        common_prefix(s, t, l, window),
        l <= i < l + window,
        longest_common_prefix(s, s, i - l, k),
        k < l + window - i,
    ensures
        longest_common_prefix(s, t, i, k),
{
    let shift = i - l;
    assert forall|q: int| 0 <= q < k implies #[trigger] s[q] == t[i + q] by {
        assert(s[q] == s[shift + q]);
        let at = shift + q;
        assert(s[at] == t[l + at]);
    }
    let at = shift + k;
    assert(s[at] == t[l + at]);
}

/// Where `t` from `l` on starts with `window` values of `s`, and `s` at the
/// position `i - l` has a common prefix up to the end of the window, `t` at
/// the position `i` has one up to there.
proof fn lemma_window_reaches<T>(s: Seq<T>, t: Seq<T>, l: int, window: int, i: int, k: int)
    requires
        common_prefix(s, t, l, window),
        l <= i < l + window,
        longest_common_prefix(s, s, i - l, k),
        k >= l + window - i,
    ensures
        common_prefix(s, t, i, l + window - i),
{
    let shift = i - l;
    assert forall|q: int| 0 <= q < l + window - i implies #[trigger] s[q] == t[i + q] by {
        assert(s[q] == s[shift + q]);
        let at = shift + q;
        assert(s[at] == t[l + at]);
    }
}

/// Lengthens a common prefix of `s` and of `t` from position `i` on, value
/// by value, to the longest.
fn lengthen<T: PartialEq>(s: &Vec<T>, t: &Vec<T>, i: usize, from: usize) -> (k: usize)
    requires
        exact_eq::<T>(),
        common_prefix(s@, t@, i as int, from as int),
    ensures
        longest_common_prefix(s@, t@, i as int, k as int),
        k >= from,
{
    let n = t.len();
    let mut j = from;
    while i + j < n && j < s.len() && t[i + j] == s[j]
        invariant
            exact_eq::<T>(),
            from <= j,
            n == t@.len(),
            common_prefix(s@, t@, i as int, j as int),
        decreases s@.len() - j,
    {
        j += 1;
    }
    j
}

/// The Z-function of a model string, for comparing the string with others.
///
/// The Z-function gives, for each position `i`, the length of the longest
/// common prefix of the string and of the string from position `i` on.
pub struct EXKMP<T: Clone + PartialEq> {
    z: Vec<usize>,
    s: Vec<T>,
}

impl<T: Clone + PartialEq> EXKMP<T> {
    /// The model string.
    pub closed spec fn model(&self) -> Seq<T> {
        self.s@
    }

    /// The Z-function of the model string.
    pub closed spec fn z_function(&self) -> Seq<usize> {
        self.z@
    }

    /// The representation invariant: the Z-function held is that of the
    /// model string.
    pub open spec fn wf(&self) -> bool {
        &&& self.z_function().len() == self.model().len()
        &&& forall|i: int|
            0 <= i < self.model().len() ==> longest_common_prefix(
                self.model(),
                self.model(),
                i,
                #[trigger] self.z_function()[i] as int,
            )
    }

    /// Computes the Z-function of `s` in `O(|s|)` steps.
    pub fn new(s: &Vec<T>) -> (r: Self)
        requires
            exact_eq::<T>(),
            exact_clone::<T>(),
        ensures
            r.wf(),
            r.model() == s@,
    {
        let copy = s.clone();
        assert(copy@ =~= s@);
        let n = s.len();
        let mut z: Vec<usize> = Vec::new();
        if n == 0 {
            return EXKMP { z, s: copy };
        }
        z.push(n);
        let mut l: usize = 0;
        let mut r: usize = 0;
        let mut i: usize = 1;
        while i < n
            invariant
                exact_eq::<T>(),
                n == s@.len(),
                1 <= i <= n,
                z@.len() == i,
                forall|q: int|
                    0 <= q < i ==> longest_common_prefix(s@, s@, q, #[trigger] z@[q] as int),
                r < n,
                i <= r ==> 1 <= l < i && common_prefix(s@, s@, l as int, r + 1 - l),
            decreases n - i,
        {
            if i <= r && z[i - l] < r - i + 1 {
                let k = z[i - l];
                proof {
                    lemma_window_copies(s@, s@, l as int, r + 1 - l, i as int, k as int);
                }
                z.push(k);
            } else {
                let from = if i > r {
                    0
                } else {
                    r - i + 1
                };
                proof {
                    if i <= r {
                        lemma_window_reaches(
                            s@,
                            s@,
                            l as int,
                            r + 1 - l,
                            i as int,
                            z@[i - l] as int,
                        );
                    }
                }
                let k = lengthen(s, s, i, from);
                z.push(k);
                l = i;
                r = i + k - 1;
            }
            i += 1;
        }
        EXKMP { z, s: copy }
    }

    /// Returns the Z-function.
    pub fn get_z(&self) -> (r: &Vec<usize>)
        ensures
            r@ == self.z_function(),
    {
        &self.z
    }

    /// Returns the model string.
    pub fn get_s(&self) -> (r: &Vec<T>)
        ensures
            r@ == self.model(),
    {
        &self.s
    }

    /// Computes for each position `i` of `t` the length of the longest
    /// common prefix of the model string and of `t` from position `i` on,
    /// in `O(|t|)` steps.
    pub fn extend(&self, t: &Vec<T>) -> (r: Vec<usize>)
        requires
            self.wf(),
            exact_eq::<T>(),
        ensures
            r@.len() == t@.len(),
            forall|i: int|
                0 <= i < t@.len() ==> longest_common_prefix(
                    self.model(),
                    t@,
                    i,
                    #[trigger] r@[i] as int,
                ),
    {
        let mut ans: Vec<usize> = Vec::new();
        let n = t.len();
        if n == 0 {
            return ans;
        }
        let first = lengthen(&self.s, t, 0, 0);
        ans.push(first);
        let mut l: usize = 0;
        let mut r: usize = if first > 0 {
            first - 1
        } else {
            0
        };
        let mut i: usize = 1;
        while i < n
            invariant
                self.wf(),
                exact_eq::<T>(),
                n == t@.len(),
                1 <= i <= n,
                ans@.len() == i,
                forall|q: int|
                    0 <= q < i ==> longest_common_prefix(self.s@, t@, q, #[trigger] ans@[q] as int),
                r < n,
                i <= r ==> l < i && common_prefix(self.s@, t@, l as int, r + 1 - l),
            decreases n - i,
        {
            if i <= r && self.z[i - l] < r - i + 1 {
                let k = self.z[i - l];
                proof {
                    lemma_window_copies(self.s@, t@, l as int, r + 1 - l, i as int, k as int);
                }
                ans.push(k);
            } else {
                let from = if i > r {
                    0
                } else {
                    r - i + 1
                };
                proof {
                    if i <= r {
                        lemma_window_reaches(
                            self.s@,
                            t@,
                            l as int,
                            r + 1 - l,
                            i as int,
                            self.z@[i - l] as int,
                        );
                    }
                }
                let k = lengthen(&self.s, t, i, from);
                ans.push(k);
                l = i;
                r = i + k - 1;
            }
            i += 1;
        }
        ans
    }
}

} // verus!
