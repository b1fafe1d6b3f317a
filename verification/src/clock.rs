//! A mutable vector clock over wide (128-bit) participant ids.
//!
//! Entries are kept in insertion order with unique keys, mirroring a
//! map that is grown one dimension at a time. Unlike the canonical
//! sorted clock, this variant is updated in place: incrementing,
//! merging and clearing mutate the value.

use vstd::prelude::*;

verus! {

/// A vector clock: participant id -> event counter, keys unique, entries
/// in insertion order.
#[derive(Debug, Clone)]
pub struct Clock {
    values: Vec<(u128, u128)>,
}

/// Looks a key up in an entry sequence (first match wins).
pub open spec fn cget(s: Seq<(u128, u128)>, k: u128) -> Option<u128>
    decreases s.len(),
{
    if s.len() == 0 {
        None
    } else if s[0].0 == k {
        Some(s[0].1)
    } else {
        cget(s.drop_first(), k)
    }
}

/// The counter a key maps to, with absent keys reading as 0.
pub open spec fn cget0(s: Seq<(u128, u128)>, k: u128) -> u128 {
    match cget(s, k) {
        Some(n) => n,
        None => 0,
    }
}

/// Whether some entry carries the key.
pub open spec fn has_key(s: Seq<(u128, u128)>, k: u128) -> bool {
    cget(s, k) is Some
}

/// No two entries carry the same key.
pub open spec fn unique_keys(s: Seq<(u128, u128)>) -> bool {
    forall|i: int, j: int| 0 <= i < j < s.len() ==> s[i].0 != s[j].0
}

/// A key is present iff some entry carries it.
pub proof fn lemma_cget_some_iff(s: Seq<(u128, u128)>, k: u128)
    ensures
        cget(s, k) is Some <==> exists|i: int| 0 <= i < s.len() && (#[trigger] s[i]).0 == k,
    decreases s.len(),
{
    if s.len() > 0 {
        lemma_cget_some_iff(s.drop_first(), k);
        if s[0].0 == k {
            assert(s[0].0 == k);
        } else {
            if cget(s.drop_first(), k) is Some {
                let i = choose|i: int|
                    0 <= i < s.drop_first().len() && (#[trigger] s.drop_first()[i]).0 == k;
                assert(s[i + 1].0 == k);
            }
            if exists|i: int| 0 <= i < s.len() && (#[trigger] s[i]).0 == k {
                let i = choose|i: int| 0 <= i < s.len() && (#[trigger] s[i]).0 == k;
                assert(s.drop_first()[i - 1].0 == k);
            }
        }
    }
}

/// With unique keys, looking up the key of entry `i` yields its value.
pub proof fn lemma_cget_index(s: Seq<(u128, u128)>, i: int)
    requires
        unique_keys(s),
        0 <= i < s.len(),
    ensures
        cget(s, s[i].0) == Some(s[i].1),
    decreases s.len(),
{
    if i > 0 {
        assert(s[0].0 != s[i].0);
        assert(s.drop_first()[i - 1] == s[i]);
        lemma_cget_index(s.drop_first(), i - 1);
    }
}

/// Appending an entry leaves every present key's lookup unchanged and
/// binds the new key only where it was absent.
pub proof fn lemma_cget_push(s: Seq<(u128, u128)>, e: (u128, u128), k: u128)
    ensures
        cget(s.push(e), k) == if cget(s, k) is Some {
            cget(s, k)
        } else if e.0 == k {
            Some(e.1)
        } else {
            None::<u128>
        },
    decreases s.len(),
{
    if s.len() == 0 {
        assert(s.push(e)[0] == e);
        if e.0 == k {
            assert(cget(s.push(e), k) == Some(e.1));
        } else {
            assert(s.push(e).drop_first() =~= Seq::<(u128, u128)>::empty());
            assert(cget(s.push(e), k) == cget(s.push(e).drop_first(), k));
            assert(cget(s.push(e).drop_first(), k) is None);
        }
    } else {
        lemma_cget_push(s.drop_first(), e, k);
        assert(s.push(e).drop_first() =~= s.drop_first().push(e));
        assert(s.push(e)[0] == s[0]);
        if s[0].0 == k {
            assert(cget(s.push(e), k) == Some(s[0].1));
            assert(cget(s, k) == Some(s[0].1));
        } else {
            assert(cget(s.push(e), k) == cget(s.drop_first().push(e), k));
            assert(cget(s, k) == cget(s.drop_first(), k));
        }
    }
}

/// Overwriting entry `i` in place changes only its own key's lookup.
pub proof fn lemma_cget_update(s: Seq<(u128, u128)>, i: int, e: (u128, u128), k: u128)
    requires
        unique_keys(s),
        0 <= i < s.len(),
        s[i].0 == e.0,
    ensures
        cget(s.update(i, e), k) == if k == e.0 {
            Some(e.1)
        } else {
            cget(s, k)
        },
    decreases s.len(),
{
    if i == 0 {
        assert(s.update(0, e)[0] == e);
        assert(s.update(0, e).drop_first() =~= s.drop_first());
        if k == e.0 {
        } else {
            assert(cget(s.update(0, e), k) == cget(s.drop_first(), k));
        }
    } else {
        assert(s[0].0 != s[i].0);
        assert(s.update(i, e)[0] == s[0]);
        assert(s.update(i, e).drop_first() =~= s.drop_first().update(i - 1, e));
        assert(s.drop_first()[i - 1] == s[i]);
        lemma_cget_update(s.drop_first(), i - 1, e, k);
    }
}

/// The larger of two wide counters.
pub open spec fn max128(a: u128, b: u128) -> u128 {
    if a >= b {
        a
    } else {
        b
    }
}

/// The largest counter a clock list holds at key `k`.
pub open spec fn others_max0(others: Seq<&Clock>, k: u128) -> u128
    decreases others.len(),
{
    if others.len() == 0 {
        0
    } else {
        max128(others_max0(others.drop_last(), k), cget0(others.last()@, k))
    }
}

/// Whether any clock in the list holds key `k`.
pub open spec fn others_has(others: Seq<&Clock>, k: u128) -> bool
    decreases others.len(),
{
    if others.len() == 0 {
        false
    } else {
        others_has(others.drop_last(), k) || has_key(others.last()@, k)
    }
}

/// `x` holds a strict advantage somewhere: a dimension the other side
/// lacks, or a larger counter on a shared dimension.
pub open spec fn lib_greater(x: Seq<(u128, u128)>, y: Seq<(u128, u128)>) -> bool {
    exists|i: int|
        0 <= i < x.len() && (!has_key(y, (#[trigger] x[i]).0) || x[i].1 > cget0(y, x[i].0))
}

/// `x` falls strictly behind somewhere: a smaller counter on a shared
/// dimension, or a dimension only the other side holds.
pub open spec fn lib_less(x: Seq<(u128, u128)>, y: Seq<(u128, u128)>) -> bool {
    (exists|i: int|
        0 <= i < x.len() && has_key(y, (#[trigger] x[i]).0) && x[i].1 < cget0(y, x[i].0))
        || (exists|j: int| 0 <= j < y.len() && !has_key(x, (#[trigger] y[j]).0))
}

/// The partial order this clock family uses: presence of a dimension is
/// itself an advantage, and mixed advantages mean concurrency (`None`).
pub open spec fn lib_cmp(x: Seq<(u128, u128)>, y: Seq<(u128, u128)>) -> Option<
    core::cmp::Ordering,
> {
    if lib_less(x, y) && lib_greater(x, y) {
        None
    } else if lib_less(x, y) {
        Some(core::cmp::Ordering::Less)
    } else if lib_greater(x, y) {
        Some(core::cmp::Ordering::Greater)
    } else {
        Some(core::cmp::Ordering::Equal)
    }
}

/// The decimal digit character for a value below ten.
pub open spec fn dec_digit(d: int) -> char {
    if d == 0 {
        '0'
    } else if d == 1 {
        '1'
    } else if d == 2 {
        '2'
    } else if d == 3 {
        '3'
    } else if d == 4 {
        '4'
    } else if d == 5 {
        '5'
    } else if d == 6 {
        '6'
    } else if d == 7 {
        '7'
    } else if d == 8 {
        '8'
    } else {
        '9'
    }
}

/// The decimal rendering of a non-negative number, most significant digit
/// first.
pub open spec fn dec_str(n: int) -> Seq<char>
    decreases n,
{
    if n < 10 {
        seq![dec_digit(n)]
    } else {
        dec_str(n / 10).push(dec_digit(n % 10))
    }
}

/// The textual index key of an entry sequence: each entry rendered as
/// `key-value-`, in entry order.
pub open spec fn index_key_spec(s: Seq<(u128, u128)>) -> Seq<char>
    decreases s.len(),
{
    if s.len() == 0 {
        Seq::empty()
    } else {
        index_key_spec(s.drop_last()) + dec_str(s.last().0 as int) + seq!['-'] + dec_str(
            s.last().1 as int,
        ) + seq!['-']
    }
}

/// Relies on std's `String::push`: appends the given character to the end
/// of the string.
#[verifier::external_body]
fn push_char(s: &mut String, c: char)
    ensures
        final(s)@ == old(s)@.push(c),
{
    s.push(c);
}

/// The character for the decimal digit `d`.
fn digit_char(d: u128) -> (c: char)
    requires
        d < 10,
    ensures
        c == dec_digit(d as int),
{
    if d == 0 {
        '0'
    } else if d == 1 {
        '1'
    } else if d == 2 {
        '2'
    } else if d == 3 {
        '3'
    } else if d == 4 {
        '4'
    } else if d == 5 {
        '5'
    } else if d == 6 {
        '6'
    } else if d == 7 {
        '7'
    } else if d == 8 {
        '8'
    } else {
        '9'
    }
}

/// Appends the decimal rendering of `n` to the string.
fn push_decimal(s: &mut String, n: u128)
    ensures
        final(s)@ == old(s)@ + dec_str(n as int),
    decreases n,
{
    if n >= 10 {
        push_decimal(s, n / 10);
        let c = digit_char(n % 10);
        push_char(s, c);
        proof {
            assert(s@ =~= old(s)@ + dec_str(n as int));
        }
    } else {
        let c = digit_char(n);
        push_char(s, c);
        proof {
            assert(s@ =~= old(s)@ + dec_str(n as int));
        }
    }
}

impl View for Clock {
    type V = Seq<(u128, u128)>;

    closed spec fn view(&self) -> Seq<(u128, u128)> {
        self.values@
    }
}

impl Clock {
    /// The representation invariant: no key occurs twice.
    pub open spec fn wf(&self) -> bool {
        unique_keys(self@)
    }

    /// What a key maps to, `None` when the dimension is absent.
    pub open spec fn spec_get(&self, k: u128) -> Option<u128> {
        cget(self@, k)
    }

    /// What a key maps to, with absent dimensions reading as 0.
    pub open spec fn spec_get0(&self, k: u128) -> u128 {
        cget0(self@, k)
    }

    /// Every explicit entry is zero.
    pub open spec fn spec_is_genesis(&self) -> bool {
        forall|i: int| 0 <= i < self@.len() ==> (#[trigger] self@[i]).1 == 0
    }

    /// Creates a new, empty clock.
    pub fn new() -> (r: Self)
        ensures
            r.wf(),
            r@ =~= Seq::<(u128, u128)>::empty(),
            r.spec_is_genesis(),
    {
        Clock { values: Vec::new() }
    }

    /// The position of the entry carrying `id`, or the length when absent.
    fn find(&self, id: u128) -> (r: usize)
        ensures
            r <= self@.len(),
            r < self@.len() ==> self@[r as int].0 == id && self.spec_get(id) == Some(
                self@[r as int].1,
            ),
            r == self@.len() ==> self.spec_get(id) is None,
            forall|j: int| 0 <= j < r ==> (#[trigger] self@[j]).0 != id,
    {
        let n = self.values.len();
        let mut i: usize = 0;
        proof {
            assert(self@.skip(0) =~= self@);
        }
        while i < n
            invariant
                n == self@.len(),
                0 <= i <= n,
                cget(self@, id) == cget(self@.skip(i as int), id),
                forall|j: int| 0 <= j < i ==> (#[trigger] self@[j]).0 != id,
            decreases n - i,
        {
            proof {
                assert(self@.skip(i as int).drop_first() =~= self@.skip(i as int + 1));
                assert(self@.skip(i as int)[0] == self@[i as int]);
            }
            if self.values[i].0 == id {
                return i;
            }
            i += 1;
        }
        proof {
            assert(self@.skip(n as int) =~= Seq::<(u128, u128)>::empty());
        }
        n
    }

    /// Increments the counter of dimension `id`, creating it at 1 when it
    /// was absent.
    pub fn inc(&mut self, id: u128)
        requires
            old(self).wf(),
            old(self).spec_get0(id) < u128::MAX,
        ensures
            final(self).wf(),
            final(self)@ == if has_key(old(self)@, id) {
                old(self)@.update(
                    choose|i: int|
                        0 <= i < old(self)@.len() && (#[trigger] old(self)@[i]).0 == id,
                    (id, (cget0(old(self)@, id) + 1) as u128),
                )
            } else {
                old(self)@.push((id, 1))
            },
            final(self).spec_get(id) == Some((old(self).spec_get0(id) + 1) as u128),
            forall|k: u128| k != id ==> #[trigger] final(self).spec_get(k) == old(self).spec_get(
                k,
            ),
    {
        let i = self.find(id);
        if i < self.values.len() {
            let v = self.values[i].1;
            self.values[i] = (id, v + 1);
            proof {
                let s = old(self)@;
                lemma_cget_some_iff(s, id);
                let w = choose|w: int| 0 <= w < s.len() && (#[trigger] s[w]).0 == id;
                // Both witnesses point at the unique entry for `id`.
                assert(w == i);
                assert(self@ == s.update(i as int, (id, (cget0(s, id) + 1) as u128)));
                assert forall|k: u128| #[trigger] cget(self@, k) == (if k == id {
                    Some((cget0(s, id) + 1) as u128)
                } else {
                    cget(s, k)
                }) by {
                    lemma_cget_update(s, i as int, (id, (cget0(s, id) + 1) as u128), k);
                }
            }
        } else {
            self.values.push((id, 1));
            proof {
                let s = old(self)@;
                lemma_cget_some_iff(s, id);
                assert forall|k: u128| #[trigger] cget(self@, k) == (if k == id {
                    Some(1u128)
                } else {
                    cget(s, k)
                }) by {
                    lemma_cget_push(s, (id, 1), k);
                }
                assert forall|a: int, b: int| 0 <= a < b < self@.len() implies self@[a].0
                    != self@[b].0 by {
                    if b == self@.len() - 1 {
                        assert(self@[a] == s[a]);
                    }
                }
            }
        }
    }

    /// Reads the counter of dimension `id`, creating it at 0 when it was
    /// absent.
    pub fn get(&mut self, id: u128) -> (r: u128)
        requires
            old(self).wf(),
        ensures
            final(self).wf(),
            r == old(self).spec_get0(id),
            final(self)@ == if has_key(old(self)@, id) {
                old(self)@
            } else {
                old(self)@.push((id, 0))
            },
            final(self).spec_get(id) == Some(r),
            forall|k: u128| k != id ==> #[trigger] final(self).spec_get(k) == old(self).spec_get(
                k,
            ),
    {
        let i = self.find(id);
        if i < self.values.len() {
            self.values[i].1
        } else {
            self.values.push((id, 0));
            proof {
                let s = old(self)@;
                lemma_cget_some_iff(s, id);
                assert forall|k: u128| #[trigger] cget(self@, k) == (if k == id {
                    Some(0u128)
                } else {
                    cget(s, k)
                }) by {
                    lemma_cget_push(s, (id, 0), k);
                }
                assert forall|a: int, b: int| 0 <= a < b < self@.len() implies self@[a].0
                    != self@[b].0 by {
                    if b == self@.len() - 1 {
                        assert(self@[a] == s[a]);
                    }
                }
            }
            0
        }
    }

    /// The counter at `id` without modifying the clock, `None` when the
    /// dimension is absent.
    fn lookup(&self, id: u128) -> (r: Option<u128>)
        ensures
            r == self.spec_get(id),
    {
        let i = self.find(id);
        if i < self.values.len() {
            Some(self.values[i].1)
        } else {
            None
        }
    }

    /// The counter at `id` without modifying the clock, with an absent
    /// dimension reading as 0.
    fn lookup0(&self, id: u128) -> (r: u128)
        ensures
            r == self.spec_get0(id),
    {
        match self.lookup(id) {
            Some(n) => n,
            None => 0,
        }
    }

    /// Raises the counter of `id` to at least `v`, creating the dimension
    /// when absent.
    fn upsert_max(&mut self, id: u128, v: u128)
        requires
            old(self).wf(),
        ensures
            final(self).wf(),
            final(self).spec_get(id) == Some(max128(old(self).spec_get0(id), v)),
            forall|k: u128| k != id ==> #[trigger] final(self).spec_get(k) == old(self).spec_get(
                k,
            ),
    {
        let i = self.find(id);
        if i < self.values.len() {
            let cur = self.values[i].1;
            if v > cur {
                self.values[i] = (id, v);
                proof {
                    let s = old(self)@;
                    assert forall|k: u128| #[trigger] cget(self@, k) == (if k == id {
                        Some(v)
                    } else {
                        cget(s, k)
                    }) by {
                        lemma_cget_update(s, i as int, (id, v), k);
                    }
                }
            }
        } else {
            self.values.push((id, v));
            proof {
                let s = old(self)@;
                assert forall|k: u128| #[trigger] cget(self@, k) == (if k == id {
                    Some(v)
                } else {
                    cget(s, k)
                }) by {
                    lemma_cget_push(s, (id, v), k);
                }
                assert forall|a: int, b: int| 0 <= a < b < self@.len() implies self@[a].0
                    != self@[b].0 by {
                    if b == self@.len() - 1 {
                        assert(self@[a] == s[a]);
                        lemma_cget_index(s, a);
                    }
                }
            }
        }
    }

    /// Merges the other clocks into this one: every dimension rises to the
    /// largest counter seen anywhere, newly seen dimensions are adopted.
    pub fn merge(&mut self, others: &Vec<&Clock>)
        requires
            old(self).wf(),
            forall|i: int| 0 <= i < others@.len() ==> (#[trigger] others@[i]).wf(),
        ensures
            final(self).wf(),
            forall|k: u128| #[trigger] final(self).spec_get0(k) == max128(
                old(self).spec_get0(k),
                others_max0(others@, k),
            ),
            forall|k: u128| #[trigger] has_key(final(self)@, k) <==> (has_key(old(self)@, k)
                || others_has(others@, k)),
    {
        let n = others.len();
        let mut i: usize = 0;
        proof {
            assert(others@.take(0) =~= Seq::<&Clock>::empty());
        }
        while i < n
            invariant
                n == others@.len(),
                0 <= i <= n,
                forall|j: int| 0 <= j < n ==> (#[trigger] others@[j]).wf(),
                self.wf(),
                forall|k: u128| #[trigger] cget0(self@, k) == max128(
                    cget0(old(self)@, k),
                    others_max0(others@.take(i as int), k),
                ),
                forall|k: u128| #[trigger] has_key(self@, k) <==> (has_key(old(self)@, k)
                    || others_has(others@.take(i as int), k)),
            decreases n - i,
        {
            let other: &Clock = others[i];
            let ghost mid = self@;
            let m = other.values.len();
            let mut j: usize = 0;
            proof {
                assert(other@.take(0) =~= Seq::<(u128, u128)>::empty());
            }
            while j < m
                invariant
                    m == other@.len(),
                    0 <= j <= m,
                    other.wf(),
                    self.wf(),
                    forall|k: u128| #[trigger] cget0(self@, k) == max128(
                        cget0(mid, k),
                        cget0(other@.take(j as int), k),
                    ),
                    forall|k: u128| #[trigger] has_key(self@, k) <==> (has_key(mid, k) || has_key(
                        other@.take(j as int),
                        k,
                    )),
                decreases m - j,
            {
                let (k, v) = other.values[j];
                let ghost before_clock = *self;
                let ghost before = self@;
                self.upsert_max(k, v);
                proof {
                    assert(other@.take(j as int + 1) =~= other@.take(j as int).push(
                        other@[j as int],
                    ));
                    assert(cget(other@.take(j as int), k) is None) by {
                        lemma_cget_some_iff(other@.take(j as int), k);
                        if cget(other@.take(j as int), k) is Some {
                            let w = choose|w: int|
                                0 <= w < j && (#[trigger] other@.take(j as int)[w]).0 == k;
                            assert(other@[w].0 == other@[j as int].0);
                        }
                    }
                    assert forall|k2: u128| #[trigger] cget(
                        other@.take(j as int + 1),
                        k2,
                    ) == (if k2 == k {
                        Some(v)
                    } else {
                        cget(other@.take(j as int), k2)
                    }) by {
                        lemma_cget_push(other@.take(j as int), (k, v), k2);
                    }
                    assert forall|k2: u128|
                        #![trigger cget0(self@, k2)]
                        #![trigger has_key(self@, k2)]
                        cget0(self@, k2) == max128(
                            cget0(mid, k2),
                            cget0(other@.take(j as int + 1), k2),
                        ) && (has_key(self@, k2) <==> (has_key(mid, k2) || has_key(
                            other@.take(j as int + 1),
                            k2,
                        ))) by {
                        assert(cget0(before, k2) == max128(
                            cget0(mid, k2),
                            cget0(other@.take(j as int), k2),
                        ));
                        assert(has_key(before, k2) <==> (has_key(mid, k2) || has_key(
                            other@.take(j as int),
                            k2,
                        )));
                        if k2 == k {
                            assert(self.spec_get(k2) == Some(max128(
                                before_clock.spec_get0(k2),
                                v,
                            )));
                        } else {
                            assert(self.spec_get(k2) == before_clock.spec_get(k2));
                        }
                    }
                }
                j += 1;
            }
            proof {
                assert(other@.take(m as int) =~= other@);
                assert(others@.take(i as int + 1).drop_last() =~= others@.take(i as int));
                assert(others@.take(i as int + 1).last() == others@[i as int]);
            }
            i += 1;
        }
        proof {
            assert(others@.take(n as int) =~= others@);
        }
    }

    /// The dimension-wise difference: this clock minus the other, floored
    /// at 0, over exactly this clock's dimensions.
    pub fn diff(&self, other: &Clock) -> (r: Clock)
        requires
            self.wf(),
        ensures
            r.wf(),
            r@.len() == self@.len(),
            forall|i: int| 0 <= i < self@.len() ==> #[trigger] r@[i] == (
                self@[i].0,
                if self@[i].1 > cget0(other@, self@[i].0) {
                    (self@[i].1 - cget0(other@, self@[i].0)) as u128
                } else {
                    0u128
                },
            ),
    {
        let n = self.values.len();
        let mut out: Vec<(u128, u128)> = Vec::new();
        let mut i: usize = 0;
        while i < n
            invariant
                n == self@.len(),
                0 <= i <= n,
                out@.len() == i,
                forall|j: int| 0 <= j < i ==> #[trigger] out@[j] == (
                    self@[j].0,
                    if self@[j].1 > cget0(other@, self@[j].0) {
                        (self@[j].1 - cget0(other@, self@[j].0)) as u128
                    } else {
                        0u128
                    },
                ),
            decreases n - i,
        {
            let (k, v1) = self.values[i];
            let v2 = other.lookup0(k);
            if v1 > v2 {
                out.push((k, v1 - v2));
            } else {
                out.push((k, 0));
            }
            i += 1;
        }
        let r = Clock { values: out };
        proof {
            assert forall|a: int, b: int| 0 <= a < b < r@.len() implies r@[a].0 != r@[b].0 by {
                assert(r@[a].0 == self@[a].0);
                assert(r@[b].0 == self@[b].0);
            }
        }
        r
    }

    /// The dimension-wise common base: the smaller of this clock's counter
    /// and the other's (absent reading as 0), over exactly this clock's
    /// dimensions.
    pub fn base_common(&self, other: &Clock) -> (r: Clock)
        requires
            self.wf(),
        ensures
            r.wf(),
            r@.len() == self@.len(),
            forall|i: int| 0 <= i < self@.len() ==> #[trigger] r@[i] == (
                self@[i].0,
                if self@[i].1 <= cget0(other@, self@[i].0) {
                    self@[i].1
                } else {
                    cget0(other@, self@[i].0)
                },
            ),
    {
        let n = self.values.len();
        let mut out: Vec<(u128, u128)> = Vec::new();
        let mut i: usize = 0;
        while i < n
            invariant
                n == self@.len(),
                0 <= i <= n,
                out@.len() == i,
                forall|j: int| 0 <= j < i ==> #[trigger] out@[j] == (
                    self@[j].0,
                    if self@[j].1 <= cget0(other@, self@[j].0) {
                        self@[j].1
                    } else {
                        cget0(other@, self@[j].0)
                    },
                ),
            decreases n - i,
        {
            let (k, v1) = self.values[i];
            let v2 = other.lookup0(k);
            if v1 <= v2 {
                out.push((k, v1));
            } else {
                out.push((k, v2));
            }
            i += 1;
        }
        let r = Clock { values: out };
        proof {
            assert forall|a: int, b: int| 0 <= a < b < r@.len() implies r@[a].0 != r@[b].0 by {
                assert(r@[a].0 == self@[a].0);
                assert(r@[b].0 == self@[b].0);
            }
        }
        r
    }

    /// The causal partial order between two clocks; `None` signals
    /// concurrent histories. Holding a dimension the other side lacks
    /// counts as being ahead there, whatever the counter.
    pub fn partial_cmp(&self, other: &Clock) -> (r: Option<core::cmp::Ordering>)
        ensures
            r == lib_cmp(self@, other@),
    {
        let mut less = false;
        let mut greater = false;
        let n = self.values.len();
        let mut i: usize = 0;
        while i < n
            invariant
                n == self@.len(),
                0 <= i <= n,
                greater == exists|ii: int|
                    0 <= ii < i && (!has_key(other@, (#[trigger] self@[ii]).0) || self@[ii].1
                        > cget0(other@, self@[ii].0)),
                less == exists|ii: int|
                    0 <= ii < i && has_key(other@, (#[trigger] self@[ii]).0) && self@[ii].1
                        < cget0(other@, self@[ii].0),
            decreases n - i,
        {
            let (k, v) = self.values[i];
            match other.lookup(k) {
                None => {
                    greater = true;
                    assert(!has_key(other@, self@[i as int].0));
                },
                Some(w) => {
                    if v > w {
                        greater = true;
                        assert(self@[i as int].1 > cget0(other@, self@[i as int].0));
                    } else if v < w {
                        less = true;
                        assert(has_key(other@, self@[i as int].0) && self@[i as int].1 < cget0(
                            other@,
                            self@[i as int].0,
                        ));
                    }
                },
            }
            i += 1;
        }
        assert(greater == lib_greater(self@, other@));
        let ghost less_part1 = less;
        let m = other.values.len();
        let mut j: usize = 0;
        while j < m
            invariant
                m == other@.len(),
                0 <= j <= m,
                less == (less_part1 || exists|jj: int|
                    0 <= jj < j && !has_key(self@, (#[trigger] other@[jj]).0)),
            decreases m - j,
        {
            let (k, _) = other.values[j];
            match self.lookup(k) {
                None => {
                    less = true;
                    assert(!has_key(self@, other@[j as int].0));
                },
                Some(_) => {},
            }
            j += 1;
        }
        assert(less == lib_less(self@, other@));
        if less && greater {
            None
        } else if less {
            Some(core::cmp::Ordering::Less)
        } else if greater {
            Some(core::cmp::Ordering::Greater)
        } else {
            Some(core::cmp::Ordering::Equal)
        }
    }

    /// The textual index key of this clock: every entry rendered as
    /// `key-value-` in entry order.
    pub fn index_key(&self) -> (r: String)
        ensures
            r@ == index_key_spec(self@),
    {
        let mut s = String::new();
        let n = self.values.len();
        let mut i: usize = 0;
        proof {
            assert(self@.take(0) =~= Seq::<(u128, u128)>::empty());
        }
        while i < n
            invariant
                n == self@.len(),
                0 <= i <= n,
                s@ == index_key_spec(self@.take(i as int)),
            decreases n - i,
        {
            let (k, v) = self.values[i];
            push_decimal(&mut s, k);
            push_char(&mut s, '-');
            push_decimal(&mut s, v);
            push_char(&mut s, '-');
            proof {
                assert(self@.take(i as int + 1).drop_last() =~= self@.take(i as int));
                assert(self@.take(i as int + 1).last() == self@[i as int]);
                assert(s@ =~= index_key_spec(self@.take(i as int + 1)));
            }
            i += 1;
        }
        proof {
            assert(self@.take(n as int) =~= self@);
        }
        s
    }

    /// Resets the clock to the empty state.
    pub fn clear(&mut self)
        ensures
            final(self).wf(),
            final(self)@ =~= Seq::<(u128, u128)>::empty(),
    {
        self.values.clear();
    }

    /// True iff every dimension holds 0, that is, no event was counted.
    pub fn is_genesis(&self) -> (r: bool)
        ensures
            r == self.spec_is_genesis(),
    {
        let n = self.values.len();
        let mut i: usize = 0;
        while i < n
            invariant
                n == self@.len(),
                0 <= i <= n,
                forall|j: int| 0 <= j < i ==> (#[trigger] self@[j]).1 == 0,
            decreases n - i,
        {
            if self.values[i].1 != 0 {
                return false;
            }
            i += 1;
        }
        true
    }
}

impl PartialEq for Clock {
    /// Map equality: the same dimensions carrying the same counters,
    /// regardless of entry order.
    fn eq(&self, other: &Self) -> (r: bool) {
        let n = self.values.len();
        if n != other.values.len() {
            return false;
        }
        let mut i: usize = 0;
        while i < n
            invariant
                n == self@.len(),
                n == other@.len(),
                0 <= i <= n,
                forall|j: int| 0 <= j < i ==> cget(other@, (#[trigger] self@[j]).0) == Some(
                    self@[j].1,
                ),
            decreases n - i,
        {
            let (k, v) = self.values[i];
            match other.lookup(k) {
                Some(w) => {
                    if w != v {
                        return false;
                    }
                },
                None => {
                    return false;
                },
            }
            i += 1;
        }
        true
    }
}

impl vstd::std_specs::cmp::PartialEqSpecImpl for Clock {
    open spec fn obeys_eq_spec() -> bool {
        true
    }

    open spec fn eq_spec(&self, other: &Self) -> bool {
        self@.len() == other@.len() && forall|j: int|
            0 <= j < self@.len() ==> cget(other@, (#[trigger] self@[j]).0) == Some(self@[j].1)
    }
}

} // verus!
