//! The core vector clock value type: a persistent mapping from dimension id
//! to event counter, kept as a list of entries strictly sorted by key.
//!
//! The sorted representation is canonical: two clocks with the same logical
//! contents hold entry-for-entry the same list, so a deterministic
//! fingerprint can be computed over it.

use bincode::Options;
use sha2::{Digest, Sha256};
use vstd::prelude::*;

verus! {

/// A scalar (Lamport) clock: a plain event counter.
pub type LamportClock = u64;

/// A dimension id, identifying one causal participant.
pub type KeyId = u64;

/// A clock variant: a shareable value that can be reduced to a scalar
/// event count.
pub trait Clock: Clone + Send + Sync + 'static {
    /// The mathematical value of the scalar reduction.
    spec fn reduce_spec(&self) -> int;

    /// Whether the scalar reduction fits in a `LamportClock`.
    spec fn reduce_in_range(&self) -> bool;

    /// Collapses the clock to a single scalar: a lossy, total-order fallback.
    fn reduce(&self) -> (r: LamportClock)
        requires
            self.reduce_in_range(),
        ensures
            r == self.reduce_spec(),
    ;
}

impl Clock for LamportClock {
    open spec fn reduce_spec(&self) -> int {
        *self as int
    }

    open spec fn reduce_in_range(&self) -> bool {
        true
    }

    fn reduce(&self) -> (r: LamportClock) {
        *self
    }
}

/// A sparse vector clock: dimension id -> counter, entries strictly sorted
/// by id. An absent dimension counts as 0 for every operator except `base`.
#[derive(Debug, Clone)]
pub struct OrdinaryClock {
    entries: Vec<(KeyId, u64)>,
}

/// Looks a key up in an entry sequence (first match wins).
pub open spec fn seq_get(s: Seq<(KeyId, u64)>, k: KeyId) -> Option<u64>
    decreases s.len(),
{
    if s.len() == 0 {
        None
    } else if s[0].0 == k {
        Some(s[0].1)
    } else {
        seq_get(s.drop_first(), k)
    }
}

/// The counter a key maps to, with absent keys reading as 0.
pub open spec fn seq_get0(s: Seq<(KeyId, u64)>, k: KeyId) -> u64 {
    match seq_get(s, k) {
        Some(n) => n,
        None => 0,
    }
}

/// Entries strictly sorted by key; this also makes keys unique.
pub open spec fn sorted(s: Seq<(KeyId, u64)>) -> bool {
    forall|i: int, j: int| 0 <= i < j < s.len() ==> s[i].0 < s[j].0
}

/// A key is present iff some entry carries it.
pub proof fn lemma_get_some_iff(s: Seq<(KeyId, u64)>, k: KeyId)
    ensures
        seq_get(s, k) is Some <==> exists|i: int| 0 <= i < s.len() && (#[trigger] s[i]).0 == k,
    decreases s.len(),
{
    if s.len() > 0 {
        lemma_get_some_iff(s.drop_first(), k);
        if s[0].0 == k {
            assert(s[0].0 == k);
        } else {
            if seq_get(s.drop_first(), k) is Some {
                let i = choose|i: int|
                    0 <= i < s.drop_first().len() && (#[trigger] s.drop_first()[i]).0 == k;
                assert(s[i + 1].0 == k);
            }
            if exists|i: int| 0 <= i < s.len() && (#[trigger] s[i]).0 == k {
                let i = choose|i: int| 0 <= i < s.len() && (#[trigger] s[i]).0 == k;
                assert(s.drop_first()[i - 1].0 == k);
            }
        }
    }
}

/// In a sorted sequence, looking up the key of entry `i` yields its value.
pub proof fn lemma_get_index(s: Seq<(KeyId, u64)>, i: int)
    requires
        sorted(s),
        0 <= i < s.len(),
    ensures
        seq_get(s, s[i].0) == Some(s[i].1),
    decreases s.len(),
{
    if i > 0 {
        assert(s[0].0 < s[i].0);
        assert(s.drop_first()[i - 1] == s[i]);
        lemma_get_index(s.drop_first(), i - 1);
    }
}

/// Every key below the first entry's key is absent from a sorted sequence.
pub proof fn lemma_get_below_first(s: Seq<(KeyId, u64)>, k: KeyId)
    requires
        sorted(s),
        s.len() > 0 ==> k < s[0].0,
    ensures
        seq_get(s, k) is None,
    decreases s.len(),
{
    if s.len() > 0 {
        lemma_get_below_first(s.drop_first(), k);
    }
}

/// Two sorted sequences with the same lookups are the same sequence.
pub proof fn lemma_sorted_get_extensional(s1: Seq<(KeyId, u64)>, s2: Seq<(KeyId, u64)>)
    requires
        sorted(s1),
        sorted(s2),
        forall|k: KeyId| #[trigger] seq_get(s1, k) == seq_get(s2, k),
    ensures
        s1 =~= s2,
    decreases s1.len() + s2.len(),
{
    if s1.len() == 0 {
        if s2.len() > 0 {
            lemma_get_index(s2, 0);
            assert(seq_get(s1, s2[0].0) is None);
        }
    } else if s2.len() == 0 {
        lemma_get_index(s1, 0);
        assert(seq_get(s2, s1[0].0) is None);
    } else {
        lemma_get_index(s1, 0);
        lemma_get_index(s2, 0);
        // The first keys agree: each is present in the other sequence, and
        // anything below a first key is absent.
        if s1[0].0 < s2[0].0 {
            lemma_get_below_first(s2, s1[0].0);
            assert(false);
        }
        if s2[0].0 < s1[0].0 {
            lemma_get_below_first(s1, s2[0].0);
            assert(false);
        }
        assert forall|k: KeyId| #[trigger] seq_get(s1.drop_first(), k) == seq_get(
            s2.drop_first(),
            k,
        ) by {
            if k == s1[0].0 {
                lemma_get_below_first(s1.drop_first(), k);
                lemma_get_below_first(s2.drop_first(), k);
            } else {
                assert(seq_get(s1, k) == seq_get(s1.drop_first(), k));
                assert(seq_get(s2, k) == seq_get(s2.drop_first(), k));
            }
        }
        lemma_sorted_get_extensional(s1.drop_first(), s2.drop_first());
        assert(s1 =~= seq![s1[0]] + s1.drop_first());
        assert(s2 =~= seq![s2[0]] + s2.drop_first());
    }
}

/// The larger of two counters.
pub open spec fn max64(a: u64, b: u64) -> u64 {
    if a >= b {
        a
    } else {
        b
    }
}

/// The merge of two sorted entry sequences: keys are united and each key
/// maps to the larger counter, an absent key contributing 0.
pub open spec fn merge_seq(s1: Seq<(KeyId, u64)>, s2: Seq<(KeyId, u64)>) -> Seq<(KeyId, u64)>
    decreases s1.len() + s2.len(),
{
    if s1.len() == 0 {
        s2
    } else if s2.len() == 0 {
        s1
    } else if s1[0].0 < s2[0].0 {
        seq![s1[0]] + merge_seq(s1.drop_first(), s2)
    } else if s2[0].0 < s1[0].0 {
        seq![s2[0]] + merge_seq(s1, s2.drop_first())
    } else {
        seq![(s1[0].0, max64(s1[0].1, s2[0].1))] + merge_seq(s1.drop_first(), s2.drop_first())
    }
}

/// The merge of two sorted sequences is sorted, and its first key, if any,
/// is one of the inputs' first keys.
pub proof fn lemma_merge_seq_sorted(s1: Seq<(KeyId, u64)>, s2: Seq<(KeyId, u64)>)
    requires
        sorted(s1),
        sorted(s2),
    ensures
        sorted(merge_seq(s1, s2)),
        merge_seq(s1, s2).len() > 0 ==> s1.len() + s2.len() > 0,
        merge_seq(s1, s2).len() > 0 ==> (s1.len() > 0 && merge_seq(s1, s2)[0].0 == s1[0].0) || (
        s2.len() > 0 && merge_seq(s1, s2)[0].0 == s2[0].0),
    decreases s1.len() + s2.len(),
{
    if s1.len() == 0 || s2.len() == 0 {
    } else if s1[0].0 < s2[0].0 {
        lemma_merge_seq_sorted(s1.drop_first(), s2);
        let m = merge_seq(s1, s2);
        let mt = merge_seq(s1.drop_first(), s2);
        assert forall|i: int, j: int| 0 <= i < j < m.len() implies m[i].0 < m[j].0 by {
            if i > 0 {
                assert(m[i] == mt[i - 1]);
                assert(m[j] == mt[j - 1]);
            } else {
                assert(m[j] == mt[j - 1]);
            }
        }
    } else if s2[0].0 < s1[0].0 {
        lemma_merge_seq_sorted(s1, s2.drop_first());
        let m = merge_seq(s1, s2);
        let mt = merge_seq(s1, s2.drop_first());
        assert forall|i: int, j: int| 0 <= i < j < m.len() implies m[i].0 < m[j].0 by {
            if i > 0 {
                assert(m[i] == mt[i - 1]);
                assert(m[j] == mt[j - 1]);
            } else {
                assert(m[j] == mt[j - 1]);
            }
        }
    } else {
        lemma_merge_seq_sorted(s1.drop_first(), s2.drop_first());
        let m = merge_seq(s1, s2);
        let mt = merge_seq(s1.drop_first(), s2.drop_first());
        assert forall|i: int, j: int| 0 <= i < j < m.len() implies m[i].0 < m[j].0 by {
            if i > 0 {
                assert(m[i] == mt[i - 1]);
                assert(m[j] == mt[j - 1]);
            } else {
                assert(m[j] == mt[j - 1]);
            }
        }
    }
}

/// Looking a key up in a merge yields the larger of the two counters, with
/// absence on both sides preserved.
pub proof fn lemma_merge_seq_get(s1: Seq<(KeyId, u64)>, s2: Seq<(KeyId, u64)>, k: KeyId)
    requires
        sorted(s1),
        sorted(s2),
    ensures
        seq_get(merge_seq(s1, s2), k) == match (seq_get(s1, k), seq_get(s2, k)) {
            (Some(a), Some(b)) => Some(max64(a, b)),
            (Some(a), None) => Some(a),
            (None, Some(b)) => Some(b),
            (None, None) => None::<u64>,
        },
    decreases s1.len() + s2.len(),
{
    if s1.len() == 0 || s2.len() == 0 {
    } else {
        let m = merge_seq(s1, s2);
        if s1[0].0 < s2[0].0 {
            lemma_merge_seq_get(s1.drop_first(), s2, k);
            assert(m.drop_first() =~= merge_seq(s1.drop_first(), s2));
            if k == s1[0].0 {
                lemma_get_below_first(s2, k);
            }
        } else if s2[0].0 < s1[0].0 {
            lemma_merge_seq_get(s1, s2.drop_first(), k);
            assert(m.drop_first() =~= merge_seq(s1, s2.drop_first()));
            if k == s2[0].0 {
                lemma_get_below_first(s1, k);
            }
        } else {
            lemma_merge_seq_get(s1.drop_first(), s2.drop_first(), k);
            assert(m.drop_first() =~= merge_seq(s1.drop_first(), s2.drop_first()));
        }
    }
}

/// The entry sequence with `k` bound to `v`: an existing entry is replaced,
/// a new one is inserted at its sorted position.
pub open spec fn seq_set(s: Seq<(KeyId, u64)>, k: KeyId, v: u64) -> Seq<(KeyId, u64)>
    decreases s.len(),
{
    if s.len() == 0 {
        seq![(k, v)]
    } else if k < s[0].0 {
        seq![(k, v)] + s
    } else if k == s[0].0 {
        seq![(k, v)] + s.drop_first()
    } else {
        seq![s[0]] + seq_set(s.drop_first(), k, v)
    }
}

/// Binding a key keeps the sequence sorted and only changes that key's
/// lookup.
pub proof fn lemma_seq_set(s: Seq<(KeyId, u64)>, k: KeyId, v: u64)
    requires
        sorted(s),
    ensures
        sorted(seq_set(s, k, v)),
        seq_get(seq_set(s, k, v), k) == Some(v),
        forall|k2: KeyId| k2 != k ==> #[trigger] seq_get(seq_set(s, k, v), k2) == seq_get(s, k2),
        seq_set(s, k, v).len() > 0,
        seq_set(s, k, v)[0].0 == (if s.len() > 0 && s[0].0 < k {
            s[0].0
        } else {
            k
        }),
    decreases s.len(),
{
    let r = seq_set(s, k, v);
    if s.len() == 0 {
        assert forall|k2: KeyId| k2 != k implies #[trigger] seq_get(r, k2) == seq_get(s, k2) by {
            assert(r.drop_first() =~= Seq::<(KeyId, u64)>::empty());
            assert(seq_get(r, k2) == seq_get(r.drop_first(), k2));
        }
    } else if k < s[0].0 {
        assert forall|k2: KeyId| k2 != k implies #[trigger] seq_get(r, k2) == seq_get(s, k2) by {
            assert(r.drop_first() =~= s);
        }
        assert(seq_get(r, k) == Some(v));
    } else if k == s[0].0 {
        assert forall|k2: KeyId| k2 != k implies #[trigger] seq_get(r, k2) == seq_get(s, k2) by {
            assert(r.drop_first() =~= s.drop_first());
        }
        assert(seq_get(r, k) == Some(v));
    } else {
        lemma_seq_set(s.drop_first(), k, v);
        let rt = seq_set(s.drop_first(), k, v);
        assert(r.drop_first() =~= rt);
        assert(seq_get(r, k) == Some(v));
        assert forall|k2: KeyId| k2 != k implies #[trigger] seq_get(r, k2) == seq_get(s, k2) by {
            if k2 != s[0].0 {
                assert(seq_get(r, k2) == seq_get(rt, k2));
                assert(seq_get(s, k2) == seq_get(s.drop_first(), k2));
            }
        }
        assert forall|i: int, j: int| 0 <= i < j < r.len() implies r[i].0 < r[j].0 by {
            if i > 0 {
                assert(r[i] == rt[i - 1]);
                assert(r[j] == rt[j - 1]);
            } else if j > 0 {
                assert(r[j] == rt[j - 1]);
                // The tail's entries carry keys from `s`'s tail or `k`, all
                // above `s[0].0`.
                if rt[j - 1].0 != k {
                    lemma_get_index(rt, j - 1);
                    lemma_get_some_iff(s.drop_first(), rt[j - 1].0);
                }
            }
        }
    }
}

/// The canonical clock contents reached by binding each listed pair in
/// turn; a later occurrence of a key overrides an earlier one.
pub open spec fn entries_fold(list: Seq<(KeyId, u64)>) -> Seq<(KeyId, u64)>
    decreases list.len(),
{
    if list.len() == 0 {
        Seq::empty()
    } else {
        seq_set(entries_fold(list.drop_last()), list.last().0, list.last().1)
    }
}

/// Entries already in canonical sorted form fold to themselves.
pub proof fn lemma_entries_fold_sorted_id(s: Seq<(KeyId, u64)>)
    requires
        sorted(s),
    ensures
        entries_fold(s) == s,
    decreases s.len(),
{
    if s.len() > 0 {
        lemma_entries_fold_sorted_id(s.drop_last());
        lemma_seq_set_position(s.drop_last(), s.last().0, s.last().1, s.len() - 1);
        assert(s.drop_last().insert(s.len() - 1, (s.last().0, s.last().1)) =~= s);
    }
}

/// A clock's entry list fits in memory: its length is bounded by the
/// address space.
pub proof fn lemma_clock_len_bound(c: &OrdinaryClock)
    ensures
        c@.len() <= usize::MAX,
{
    vstd::std_specs::vec::axiom_spec_len(&c.entries);
}

/// `seq_set` in terms of the insertion position: at the first index whose
/// key is not below `k`, either the entry is replaced or a new one appears.
pub proof fn lemma_seq_set_position(s: Seq<(KeyId, u64)>, k: KeyId, v: u64, i: int)
    requires
        sorted(s),
        0 <= i <= s.len(),
        forall|j: int| 0 <= j < i ==> (#[trigger] s[j]).0 < k,
        i < s.len() ==> s[i].0 >= k,
    ensures
        seq_set(s, k, v) == if i < s.len() && s[i].0 == k {
            s.update(i, (k, v))
        } else {
            s.insert(i, (k, v))
        },
    decreases s.len(),
{
    if s.len() == 0 {
        assert(seq_set(s, k, v) =~= s.insert(0, (k, v)));
    } else if i == 0 {
        if s[0].0 == k {
            assert(seq_set(s, k, v) =~= s.update(0, (k, v)));
        } else {
            assert(seq_set(s, k, v) =~= s.insert(0, (k, v)));
        }
    } else {
        lemma_seq_set_position(s.drop_first(), k, v, i - 1);
        let t = s.drop_first();
        if i < s.len() && s[i].0 == k {
            assert(t[i - 1] == s[i]);
            assert(seq_set(s, k, v) =~= seq![s[0]] + t.update(i - 1, (k, v)));
            assert(s.update(i, (k, v)) =~= seq![s[0]] + t.update(i - 1, (k, v)));
        } else {
            assert(seq_set(s, k, v) =~= seq![s[0]] + t.insert(i - 1, (k, v)));
            assert(s.insert(i, (k, v)) =~= seq![s[0]] + t.insert(i - 1, (k, v)));
        }
    }
}

/// One entry of `y` does not put `x` behind: a zero counter never
/// constrains, and otherwise `x` must hold at least as much at that key.
pub open spec fn ge_at(x: Seq<(KeyId, u64)>, e: (KeyId, u64)) -> bool {
    e.1 == 0 || seq_get0(x, e.0) >= e.1
}

/// `x` dominates `y`: every non-zero entry of `y` is matched or exceeded
/// in `x`. Entries with counter 0 are skipped even if absent from `x`.
pub open spec fn ge_seq(x: Seq<(KeyId, u64)>, y: Seq<(KeyId, u64)>) -> bool {
    forall|i: int| 0 <= i < y.len() ==> ge_at(x, #[trigger] y[i])
}

/// The causal partial order: mutual domination is equality, one-sided
/// domination orders the clocks, and no domination means concurrency.
pub open spec fn cmp_seq(x: Seq<(KeyId, u64)>, y: Seq<(KeyId, u64)>) -> Option<
    core::cmp::Ordering,
> {
    if ge_seq(x, y) && ge_seq(y, x) {
        Some(core::cmp::Ordering::Equal)
    } else if ge_seq(x, y) {
        Some(core::cmp::Ordering::Greater)
    } else if ge_seq(y, x) {
        Some(core::cmp::Ordering::Less)
    } else {
        None
    }
}

/// The contents after merging a whole dependency list into `s`, one merge
/// per dependency, in order.
pub open spec fn merge_all(s: Seq<(KeyId, u64)>, deps: Seq<OrdinaryClock>) -> Seq<(KeyId, u64)>
    decreases deps.len(),
{
    if deps.len() == 0 {
        s
    } else {
        merge_seq(merge_all(s, deps.drop_last()), deps.last()@)
    }
}

/// The largest counter a dependency list holds at key `k`.
pub open spec fn deps_max0(deps: Seq<OrdinaryClock>, k: KeyId) -> u64
    decreases deps.len(),
{
    if deps.len() == 0 {
        0
    } else {
        max64(deps_max0(deps.drop_last(), k), deps.last().spec_get0(k))
    }
}

/// Merging a dependency list keeps the contents sorted and takes, at each
/// key, the largest counter seen anywhere; a key is present iff it is
/// present somewhere.
pub proof fn lemma_merge_all_get(s: Seq<(KeyId, u64)>, deps: Seq<OrdinaryClock>, k: KeyId)
    requires
        sorted(s),
        forall|i: int| 0 <= i < deps.len() ==> (#[trigger] deps[i]).wf(),
    ensures
        sorted(merge_all(s, deps)),
        seq_get0(merge_all(s, deps), k) == max64(seq_get0(s, k), deps_max0(deps, k)),
        seq_get(merge_all(s, deps), k) is Some <==> (seq_get(s, k) is Some || exists|i: int|
            0 <= i < deps.len() && (#[trigger] deps[i]).spec_get(k) is Some),
    decreases deps.len(),
{
    if deps.len() > 0 {
        lemma_merge_all_get(s, deps.drop_last(), k);
        lemma_merge_seq_sorted(merge_all(s, deps.drop_last()), deps.last()@);
        lemma_merge_seq_get(merge_all(s, deps.drop_last()), deps.last()@, k);
        if seq_get(merge_all(s, deps), k) is Some {
            if !(seq_get(s, k) is Some) {
                if deps.last().spec_get(k) is Some {
                    assert(deps[deps.len() - 1].spec_get(k) is Some);
                } else {
                    let i = choose|i: int|
                        0 <= i < deps.drop_last().len() && (#[trigger] deps.drop_last()[i]).spec_get(
                            k,
                        ) is Some;
                    assert(deps[i].spec_get(k) is Some);
                }
            }
        }
        if seq_get(s, k) is Some || exists|i: int|
            0 <= i < deps.len() && (#[trigger] deps[i]).spec_get(k) is Some {
            if !(seq_get(s, k) is Some) {
                let i = choose|i: int|
                    0 <= i < deps.len() && (#[trigger] deps[i]).spec_get(k) is Some;
                if i < deps.len() - 1 {
                    assert(deps.drop_last()[i].spec_get(k) is Some);
                }
            }
        }
    }
}

/// Merging depends only on the dependencies' contents, not on which clock
/// values carry them.
pub proof fn lemma_merge_all_views(
    s: Seq<(KeyId, u64)>,
    d1: Seq<OrdinaryClock>,
    d2: Seq<OrdinaryClock>,
)
    requires
        d1.len() == d2.len(),
        forall|i: int| 0 <= i < d1.len() ==> (#[trigger] d1[i])@ == d2[i]@,
    ensures
        merge_all(s, d1) == merge_all(s, d2),
    decreases d1.len(),
{
    if d1.len() > 0 {
        assert forall|i: int| 0 <= i < d1.drop_last().len() implies (#[trigger] d1.drop_last()[i])@
            == d2.drop_last()[i]@ by {
            assert(d1[i]@ == d2[i]@);
        }
        lemma_merge_all_views(s, d1.drop_last(), d2.drop_last());
        assert(d1.last()@ == d2.last()@);
    }
}

/// A dependency list whose members all stay below a bound at key `k` has
/// its maximum below that bound too.
pub proof fn lemma_deps_max0_le(deps: Seq<OrdinaryClock>, k: KeyId, b: u64)
    requires
        forall|i: int| 0 <= i < deps.len() ==> (#[trigger] deps[i]).spec_get0(k) <= b,
    ensures
        deps_max0(deps, k) <= b,
    decreases deps.len(),
{
    if deps.len() > 0 {
        assert(deps[deps.len() - 1].spec_get0(k) <= b);
        assert forall|i: int| 0 <= i < deps.drop_last().len() implies (#[trigger] deps.drop_last()[i]).spec_get0(
            k,
        ) <= b by {
            assert(deps.drop_last()[i] == deps[i]);
        }
        lemma_deps_max0_le(deps.drop_last(), k, b);
    }
}

/// The smaller of two counters.
pub open spec fn min64(a: u64, b: u64) -> u64 {
    if a <= b {
        a
    } else {
        b
    }
}

/// The common lower bound of two sorted entry sequences: a key held by
/// both maps to the smaller counter; a key held by one side alone keeps its
/// own counter unreduced. This deliberately differs from `merge_seq`'s
/// absent-key-is-zero convention and must not be unified with it.
pub open spec fn base_seq(s1: Seq<(KeyId, u64)>, s2: Seq<(KeyId, u64)>) -> Seq<(KeyId, u64)>
    decreases s1.len() + s2.len(),
{
    if s1.len() == 0 {
        s2
    } else if s2.len() == 0 {
        s1
    } else if s1[0].0 < s2[0].0 {
        seq![s1[0]] + base_seq(s1.drop_first(), s2)
    } else if s2[0].0 < s1[0].0 {
        seq![s2[0]] + base_seq(s1, s2.drop_first())
    } else {
        seq![(s1[0].0, min64(s1[0].1, s2[0].1))] + base_seq(s1.drop_first(), s2.drop_first())
    }
}

/// The common lower bound of two sorted sequences is sorted, and its first
/// key, if any, is one of the inputs' first keys.
pub proof fn lemma_base_seq_sorted(s1: Seq<(KeyId, u64)>, s2: Seq<(KeyId, u64)>)
    requires
        sorted(s1),
        sorted(s2),
    ensures
        sorted(base_seq(s1, s2)),
        base_seq(s1, s2).len() > 0 ==> (s1.len() > 0 && base_seq(s1, s2)[0].0 == s1[0].0) || (
        s2.len() > 0 && base_seq(s1, s2)[0].0 == s2[0].0),
    decreases s1.len() + s2.len(),
{
    if s1.len() == 0 || s2.len() == 0 {
    } else if s1[0].0 < s2[0].0 {
        lemma_base_seq_sorted(s1.drop_first(), s2);
        let m = base_seq(s1, s2);
        let mt = base_seq(s1.drop_first(), s2);
        assert forall|i: int, j: int| 0 <= i < j < m.len() implies m[i].0 < m[j].0 by {
            if i > 0 {
                assert(m[i] == mt[i - 1]);
                assert(m[j] == mt[j - 1]);
            } else {
                assert(m[j] == mt[j - 1]);
            }
        }
    } else if s2[0].0 < s1[0].0 {
        lemma_base_seq_sorted(s1, s2.drop_first());
        let m = base_seq(s1, s2);
        let mt = base_seq(s1, s2.drop_first());
        assert forall|i: int, j: int| 0 <= i < j < m.len() implies m[i].0 < m[j].0 by {
            if i > 0 {
                assert(m[i] == mt[i - 1]);
                assert(m[j] == mt[j - 1]);
            } else {
                assert(m[j] == mt[j - 1]);
            }
        }
    } else {
        lemma_base_seq_sorted(s1.drop_first(), s2.drop_first());
        let m = base_seq(s1, s2);
        let mt = base_seq(s1.drop_first(), s2.drop_first());
        assert forall|i: int, j: int| 0 <= i < j < m.len() implies m[i].0 < m[j].0 by {
            if i > 0 {
                assert(m[i] == mt[i - 1]);
                assert(m[j] == mt[j - 1]);
            } else {
                assert(m[j] == mt[j - 1]);
            }
        }
    }
}

/// Looking a key up in a common lower bound yields the smaller counter on
/// common keys and the single holder's counter otherwise.
pub proof fn lemma_base_seq_get(s1: Seq<(KeyId, u64)>, s2: Seq<(KeyId, u64)>, k: KeyId)
    requires
        sorted(s1),
        sorted(s2),
    ensures
        seq_get(base_seq(s1, s2), k) == match (seq_get(s1, k), seq_get(s2, k)) {
            (Some(a), Some(b)) => Some(min64(a, b)),
            (Some(a), None) => Some(a),
            (None, Some(b)) => Some(b),
            (None, None) => None::<u64>,
        },
    decreases s1.len() + s2.len(),
{
    if s1.len() == 0 || s2.len() == 0 {
    } else {
        let m = base_seq(s1, s2);
        if s1[0].0 < s2[0].0 {
            lemma_base_seq_get(s1.drop_first(), s2, k);
            assert(m.drop_first() =~= base_seq(s1.drop_first(), s2));
            if k == s1[0].0 {
                lemma_get_below_first(s2, k);
            }
        } else if s2[0].0 < s1[0].0 {
            lemma_base_seq_get(s1, s2.drop_first(), k);
            assert(m.drop_first() =~= base_seq(s1, s2.drop_first()));
            if k == s2[0].0 {
                lemma_get_below_first(s1, k);
            }
        } else {
            lemma_base_seq_get(s1.drop_first(), s2.drop_first(), k);
            assert(m.drop_first() =~= base_seq(s1.drop_first(), s2.drop_first()));
        }
    }
}

/// The contents of the common lower bound of a whole clock list, folded
/// pairwise in order from the empty start.
pub open spec fn base_all(deps: Seq<OrdinaryClock>) -> Seq<(KeyId, u64)>
    decreases deps.len(),
{
    if deps.len() == 0 {
        Seq::empty()
    } else {
        base_seq(base_all(deps.drop_last()), deps.last()@)
    }
}

/// What a key maps to across a clock list's common lower bound: the
/// smallest counter among exactly the clocks that hold the key.
pub open spec fn deps_min(deps: Seq<OrdinaryClock>, k: KeyId) -> Option<u64>
    decreases deps.len(),
{
    if deps.len() == 0 {
        None
    } else {
        match (deps_min(deps.drop_last(), k), deps.last().spec_get(k)) {
            (Some(a), Some(b)) => Some(min64(a, b)),
            (Some(a), None) => Some(a),
            (None, Some(b)) => Some(b),
            (None, None) => None::<u64>,
        }
    }
}

/// The folded common lower bound is sorted and realizes `deps_min` at
/// every key.
pub proof fn lemma_base_all_get(deps: Seq<OrdinaryClock>, k: KeyId)
    requires
        forall|i: int| 0 <= i < deps.len() ==> (#[trigger] deps[i]).wf(),
    ensures
        sorted(base_all(deps)),
        seq_get(base_all(deps), k) == deps_min(deps, k),
    decreases deps.len(),
{
    if deps.len() > 0 {
        lemma_base_all_get(deps.drop_last(), k);
        lemma_base_seq_sorted(base_all(deps.drop_last()), deps.last()@);
        lemma_base_seq_get(base_all(deps.drop_last()), deps.last()@, k);
    }
}

/// The sum of all counters in an entry sequence.
pub open spec fn sum_seq(s: Seq<(KeyId, u64)>) -> int
    decreases s.len(),
{
    if s.len() == 0 {
        0
    } else {
        sum_seq(s.drop_last()) + s.last().1
    }
}

/// A prefix never sums to more than the whole sequence.
pub proof fn lemma_sum_take_le(s: Seq<(KeyId, u64)>, i: int)
    requires
        0 <= i <= s.len(),
    ensures
        sum_seq(s.take(i)) <= sum_seq(s),
        sum_seq(s.take(i)) >= 0,
    decreases s.len(),
{
    if i == s.len() {
        assert(s.take(i) =~= s);
        lemma_sum_nonneg(s);
    } else {
        assert(s.drop_last().take(i) =~= s.take(i));
        lemma_sum_take_le(s.drop_last(), i);
    }
}

/// Counters are non-negative, so the sum is too.
pub proof fn lemma_sum_nonneg(s: Seq<(KeyId, u64)>)
    ensures
        sum_seq(s) >= 0,
    decreases s.len(),
{
    if s.len() > 0 {
        lemma_sum_nonneg(s.drop_last());
    }
}

/// The canonical byte serialization of an entry list, as the encoder
/// produces it; a function of the entries alone.
pub uninterp spec fn encoded_entries(s: Seq<(KeyId, u64)>) -> Seq<u8>;

/// The SHA-256 digest of a byte sequence.
pub uninterp spec fn sha256_of(b: Seq<u8>) -> Seq<u8>;

/// What comparing two clocks at one dimension yields: presence wins over
/// absence, and two present counters compare numerically.
pub open spec fn dep_cmp_spec(x: Seq<(KeyId, u64)>, y: Seq<(KeyId, u64)>, id: KeyId) -> core::cmp::Ordering {
    match (seq_get(x, id), seq_get(y, id)) {
        (None, Some(_)) => core::cmp::Ordering::Less,
        (Some(_), None) => core::cmp::Ordering::Greater,
        (None, None) => core::cmp::Ordering::Equal,
        (Some(n), Some(m)) => if n < m {
            core::cmp::Ordering::Less
        } else if n == m {
            core::cmp::Ordering::Equal
        } else {
            core::cmp::Ordering::Greater
        },
    }
}

impl View for OrdinaryClock {
    type V = Seq<(KeyId, u64)>;

    closed spec fn view(&self) -> Seq<(KeyId, u64)> {
        self.entries@
    }
}

impl OrdinaryClock {
    /// The representation invariant: the entry list is strictly sorted.
    pub open spec fn wf(&self) -> bool {
        sorted(self@)
    }

    /// What a key maps to, `None` when the dimension is absent.
    pub open spec fn spec_get(&self, k: KeyId) -> Option<u64> {
        seq_get(self@, k)
    }

    /// What a key maps to, with absent dimensions reading as 0.
    pub open spec fn spec_get0(&self, k: KeyId) -> u64 {
        seq_get0(self@, k)
    }

    /// Every explicit entry is zero: the clock precedes any event.
    pub open spec fn spec_is_genesis(&self) -> bool {
        forall|i: int| 0 <= i < self@.len() ==> (#[trigger] self@[i]).1 == 0
    }

    /// The empty (genesis) clock.
    pub fn new() -> (r: Self)
        ensures
            r.wf(),
            r@ =~= Seq::<(KeyId, u64)>::empty(),
            r.spec_is_genesis(),
    {
        OrdinaryClock { entries: Vec::new() }
    }

    /// True iff every explicit counter is 0 (the empty clock is genesis).
    pub fn is_genesis(&self) -> (r: bool)
        ensures
            r == self.spec_is_genesis(),
    {
        let n = self.entries.len();
        let mut i: usize = 0;
        while i < n
            invariant
                n == self@.len(),
                0 <= i <= n,
                forall|j: int| 0 <= j < i ==> (#[trigger] self@[j]).1 == 0,
            decreases n - i,
        {
            if self.entries[i].1 != 0 {
                return false;
            }
            i += 1;
        }
        true
    }

    /// The counter at `id`, `None` when the dimension is absent.
    pub fn get(&self, id: KeyId) -> (r: Option<u64>)
        ensures
            r == self.spec_get(id),
    {
        let n = self.entries.len();
        let mut i: usize = 0;
        proof {
            assert(self@.skip(0) =~= self@);
        }
        while i < n
            invariant
                n == self@.len(),
                0 <= i <= n,
                seq_get(self@, id) == seq_get(self@.skip(i as int), id),
            decreases n - i,
        {
            proof {
                assert(self@.skip(i as int).drop_first() =~= self@.skip(i as int + 1));
            }
            if self.entries[i].0 == id {
                assert(self@.skip(i as int)[0] == self@[i as int]);
                return Some(self.entries[i].1);
            }
            i += 1;
        }
        assert(self@.skip(n as int) =~= Seq::<(KeyId, u64)>::empty());
        None
    }

    /// The counter at `id`, with an absent dimension reading as 0.
    pub fn get0(&self, id: KeyId) -> (r: u64)
        ensures
            r == self.spec_get0(id),
    {
        match self.get(id) {
            Some(n) => n,
            None => 0,
        }
    }

    /// Merges two clocks: each dimension takes the larger counter, an
    /// absent dimension contributing 0.
    pub fn merge(&self, other: &Self) -> (r: Self)
        requires
            self.wf(),
            other.wf(),
        ensures
            r.wf(),
            r@ == merge_seq(self@, other@),
            forall|k: KeyId| #[trigger] r.spec_get(k) == match (
                self.spec_get(k),
                other.spec_get(k),
            ) {
                (Some(a), Some(b)) => Some(max64(a, b)),
                (Some(a), None) => Some(a),
                (None, Some(b)) => Some(b),
                (None, None) => None::<u64>,
            },
    {
        let s1 = Ghost(self@);
        let s2 = Ghost(other@);
        let n1 = self.entries.len();
        let n2 = other.entries.len();
        let mut out: Vec<(KeyId, u64)> = Vec::new();
        let mut i: usize = 0;
        let mut j: usize = 0;
        proof {
            assert(s1@.skip(0) =~= s1@);
            assert(s2@.skip(0) =~= s2@);
        }
        while i < n1 || j < n2
            invariant
                n1 == s1@.len(),
                n2 == s2@.len(),
                s1@ == self@,
                s2@ == other@,
                0 <= i <= n1,
                0 <= j <= n2,
                merge_seq(s1@, s2@) == out@ + merge_seq(s1@.skip(i as int), s2@.skip(j as int)),
            decreases n1 + n2 - i - j,
        {
            let ghost r1 = s1@.skip(i as int);
            let ghost r2 = s2@.skip(j as int);
            proof {
                if i < n1 {
                    assert(r1[0] == s1@[i as int]);
                    assert(r1.drop_first() =~= s1@.skip(i as int + 1));
                }
                if j < n2 {
                    assert(r2[0] == s2@[j as int]);
                    assert(r2.drop_first() =~= s2@.skip(j as int + 1));
                }
            }
            if j >= n2 || (i < n1 && self.entries[i].0 < other.entries[j].0) {
                out.push(self.entries[i]);
                proof {
                    if j >= n2 {
                        assert(r2 =~= Seq::<(KeyId, u64)>::empty());
                        assert(merge_seq(r1, r2) == r1);
                        assert(r1 =~= seq![s1@[i as int]] + s1@.skip(i as int + 1));
                    } else {
                        assert(merge_seq(r1, r2) == seq![r1[0]] + merge_seq(r1.drop_first(), r2));
                    }
                    assert(out@ + merge_seq(s1@.skip(i as int + 1), r2) =~= out@.drop_last()
                        + merge_seq(r1, r2));
                }
                i += 1;
            } else if i >= n1 || other.entries[j].0 < self.entries[i].0 {
                out.push(other.entries[j]);
                proof {
                    if i >= n1 {
                        assert(r1 =~= Seq::<(KeyId, u64)>::empty());
                        assert(merge_seq(r1, r2) == r2);
                        assert(r2 =~= seq![s2@[j as int]] + s2@.skip(j as int + 1));
                    } else {
                        assert(merge_seq(r1, r2) == seq![r2[0]] + merge_seq(r1, r2.drop_first()));
                    }
                    assert(out@ + merge_seq(r1, s2@.skip(j as int + 1)) =~= out@.drop_last()
                        + merge_seq(r1, r2));
                }
                j += 1;
            } else {
                let a = self.entries[i].1;
                let b = other.entries[j].1;
                let v = if a >= b {
                    a
                } else {
                    b
                };
                out.push((self.entries[i].0, v));
                proof {
                    assert(merge_seq(r1, r2) == seq![(r1[0].0, max64(r1[0].1, r2[0].1))]
                        + merge_seq(r1.drop_first(), r2.drop_first()));
                    assert(out@ + merge_seq(s1@.skip(i as int + 1), s2@.skip(j as int + 1))
                        =~= out@.drop_last() + merge_seq(r1, r2));
                }
                i += 1;
                j += 1;
            }
        }
        proof {
            assert(s1@.skip(n1 as int) =~= Seq::<(KeyId, u64)>::empty());
            assert(s2@.skip(n2 as int) =~= Seq::<(KeyId, u64)>::empty());
            assert(out@ =~= out@ + merge_seq(s1@.skip(n1 as int), s2@.skip(n2 as int)));
            lemma_merge_seq_sorted(self@, other@);
            assert forall|k: KeyId| #[trigger] seq_get(merge_seq(self@, other@), k) == match (
                seq_get(self@, k),
                seq_get(other@, k),
            ) {
                (Some(a), Some(b)) => Some(max64(a, b)),
                (Some(a), None) => Some(a),
                (None, Some(b)) => Some(b),
                (None, None) => None::<u64>,
            } by {
                lemma_merge_seq_get(self@, other@, k);
            }
        }
        OrdinaryClock { entries: out }
    }

    /// Binds dimension `id` to `v`, replacing any existing entry and keeping
    /// the entries sorted.
    pub fn set(&mut self, id: KeyId, v: u64)
        requires
            old(self).wf(),
        ensures
            final(self).wf(),
            final(self)@ == seq_set(old(self)@, id, v),
            final(self).spec_get(id) == Some(v),
            forall|k2: KeyId| k2 != id ==> #[trigger] final(self).spec_get(k2) == old(
                self,
            ).spec_get(k2),
    {
        proof {
            lemma_seq_set(self@, id, v);
        }
        let n = self.entries.len();
        let mut i: usize = 0;
        while i < n && self.entries[i].0 < id
            invariant
                n == self@.len(),
                0 <= i <= n,
                forall|j: int| 0 <= j < i ==> (#[trigger] self@[j]).0 < id,
            decreases n - i,
        {
            i += 1;
        }
        proof {
            lemma_seq_set_position(self@, id, v, i as int);
        }
        if i < n && self.entries[i].0 == id {
            self.entries[i] = (id, v);
        } else {
            self.entries.insert(i, (id, v));
        }
    }

    /// A clock built by binding each listed pair in turn: later occurrences
    /// of a key win, and the result is in canonical sorted form.
    pub fn from_entries(list: &Vec<(KeyId, u64)>) -> (r: Self)
        ensures
            r.wf(),
            r@ == entries_fold(list@),
    {
        let mut r = OrdinaryClock::new();
        let n = list.len();
        let mut i: usize = 0;
        proof {
            assert(list@.take(0) =~= Seq::<(KeyId, u64)>::empty());
        }
        while i < n
            invariant
                n == list@.len(),
                0 <= i <= n,
                r.wf(),
                r@ == entries_fold(list@.take(i as int)),
            decreases n - i,
        {
            r.set(list[i].0, list[i].1);
            proof {
                assert(list@.take(i as int + 1).drop_last() =~= list@.take(i as int));
                assert(list@.take(i as int + 1).last() == list@[i as int]);
            }
            i += 1;
        }
        proof {
            assert(list@.take(n as int) =~= list@);
        }
        r
    }

    /// An entry-for-entry copy of this clock.
    pub(crate) fn duplicate(&self) -> (r: Self)
        ensures
            r@ == self@,
    {
        let n = self.entries.len();
        let mut out: Vec<(KeyId, u64)> = Vec::new();
        let mut i: usize = 0;
        while i < n
            invariant
                n == self@.len(),
                0 <= i <= n,
                out@ =~= self@.take(i as int),
            decreases n - i,
        {
            out.push(self.entries[i]);
            i += 1;
        }
        proof {
            assert(self@.take(n as int) =~= self@);
        }
        OrdinaryClock { entries: out }
    }

    /// The sole advancing operation: merges `others` into this clock, then
    /// increases the counter of dimension `id` by exactly one.
    ///
    /// The result strictly dominates this clock, and when no dependency is
    /// ahead at `id` the new counter is exactly this clock's plus one.
    pub fn update(&self, others: &Vec<OrdinaryClock>, id: KeyId) -> (r: Self)
        requires
            self.wf(),
            forall|i: int| 0 <= i < others@.len() ==> (#[trigger] others@[i]).wf(),
            self.spec_get0(id) < u64::MAX,
            forall|i: int| 0 <= i < others@.len() ==> (#[trigger] others@[i]).spec_get0(id)
                < u64::MAX,
        ensures
            r.wf(),
            r@ == seq_set(
                merge_all(self@, others@),
                id,
                (seq_get0(merge_all(self@, others@), id) + 1) as u64,
            ),
            r.spec_get0(id) == seq_get0(merge_all(self@, others@), id) + 1,
            forall|k: KeyId| k != id ==> #[trigger] r.spec_get(k) == seq_get(
                merge_all(self@, others@),
                k,
            ),
            (forall|i: int| 0 <= i < others@.len() ==> (#[trigger] others@[i]).spec_get0(id)
                <= self.spec_get0(id)) ==> r.spec_get0(id) == self.spec_get0(id) + 1,
            cmp_seq(r@, self@) == Some(core::cmp::Ordering::Greater),
            !r.spec_is_genesis(),
    {
        let n = others.len();
        let mut acc = self.duplicate();
        let mut i: usize = 0;
        proof {
            assert(others@.take(0) =~= Seq::<OrdinaryClock>::empty());
        }
        while i < n
            invariant
                n == others@.len(),
                0 <= i <= n,
                self.wf(),
                forall|j: int| 0 <= j < n ==> (#[trigger] others@[j]).wf(),
                acc.wf(),
                acc@ == merge_all(self@, others@.take(i as int)),
            decreases n - i,
        {
            let merged = acc.merge(&others[i]);
            proof {
                assert(others@.take(i as int + 1).drop_last() =~= others@.take(i as int));
                assert(others@.take(i as int + 1).last() == others@[i as int]);
            }
            acc = merged;
            i += 1;
        }
        proof {
            assert(others@.take(n as int) =~= others@);
            lemma_merge_all_get(self@, others@, id);
            lemma_deps_max0_le(others@, id, (u64::MAX - 1) as u64);
        }
        let ghost m = merge_all(self@, others@);
        let cur = acc.get0(id);
        let bumped = cur + 1;
        acc.set(id, bumped);
        proof {
            lemma_seq_set(m, id, bumped);
            // No dependency ahead at `id`: the merged counter is this
            // clock's own, so the bump lands exactly one above it.
            if forall|i2: int| 0 <= i2 < others@.len() ==> (#[trigger] others@[i2]).spec_get0(id)
                <= self.spec_get0(id) {
                lemma_deps_max0_le(others@, id, self.spec_get0(id));
            }
            // The updated clock strictly dominates the starting clock.
            assert forall|j: int| 0 <= j < self@.len() implies ge_at(acc@, #[trigger] self@[j]) by {
                let e = self@[j];
                lemma_get_index(self@, j);
                lemma_merge_all_get(self@, others@, e.0);
                if e.0 != id {
                    assert(seq_get(acc@, e.0) == seq_get(m, e.0));
                }
            }
            assert(!ge_seq(self@, acc@)) by {
                lemma_get_some_iff(acc@, id);
                let w = choose|w: int| 0 <= w < acc@.len() && (#[trigger] acc@[w]).0 == id;
                lemma_get_index(acc@, w);
                assert(acc@[w].1 == bumped);
                assert(!ge_at(self@, acc@[w]));
            }
            assert(!acc.spec_is_genesis()) by {
                lemma_get_some_iff(acc@, id);
                let w = choose|w: int| 0 <= w < acc@.len() && (#[trigger] acc@[w]).0 == id;
                lemma_get_index(acc@, w);
                assert(acc@[w].1 != 0);
            }
        }
        acc
    }

    /// Whether this clock dominates `other`: every non-zero entry of
    /// `other` is matched or exceeded here.
    pub fn dominates(&self, other: &Self) -> (r: bool)
        ensures
            r == ge_seq(self@, other@),
    {
        let n = other.entries.len();
        let mut i: usize = 0;
        while i < n
            invariant
                n == other@.len(),
                0 <= i <= n,
                forall|j: int| 0 <= j < i ==> ge_at(self@, #[trigger] other@[j]),
            decreases n - i,
        {
            let (k, v) = other.entries[i];
            if v != 0 {
                if self.get0(k) < v {
                    return false;
                }
            }
            i += 1;
        }
        true
    }

    /// The causal partial order over the two clocks' contents; `None`
    /// signals concurrency. A dimension holding 0 never constrains the
    /// comparison, present or not.
    pub fn partial_cmp(&self, other: &Self) -> (r: Option<core::cmp::Ordering>)
        ensures
            r == cmp_seq(self@, other@),
    {
        let forward = self.dominates(other);
        let backward = other.dominates(self);
        if forward && backward {
            Some(core::cmp::Ordering::Equal)
        } else if forward {
            Some(core::cmp::Ordering::Greater)
        } else if backward {
            Some(core::cmp::Ordering::Less)
        } else {
            None
        }
    }

    /// Compares the two clocks at the single dimension `id`: presence wins
    /// over absence, and two present counters compare numerically.
    pub fn dep_cmp(&self, other: &Self, id: KeyId) -> (r: core::cmp::Ordering)
        ensures
            r == dep_cmp_spec(self@, other@, id),
    {
        match (self.get(id), other.get(id)) {
            (None, Some(_)) => core::cmp::Ordering::Less,
            (Some(_), None) => core::cmp::Ordering::Greater,
            (None, None) => core::cmp::Ordering::Equal,
            (Some(n), Some(m)) => {
                if n < m {
                    core::cmp::Ordering::Less
                } else if n == m {
                    core::cmp::Ordering::Equal
                } else {
                    core::cmp::Ordering::Greater
                }
            },
        }
    }

    /// The pairwise common lower bound: a key held by both sides takes the
    /// smaller counter, a key held by one side alone keeps its counter.
    fn base_merge(&self, other: &Self) -> (r: Self)
        requires
            self.wf(),
            other.wf(),
        ensures
            r.wf(),
            r@ == base_seq(self@, other@),
    {
        let s1 = Ghost(self@);
        let s2 = Ghost(other@);
        let n1 = self.entries.len();
        let n2 = other.entries.len();
        let mut out: Vec<(KeyId, u64)> = Vec::new();
        let mut i: usize = 0;
        let mut j: usize = 0;
        proof {
            assert(s1@.skip(0) =~= s1@);
            assert(s2@.skip(0) =~= s2@);
        }
        while i < n1 || j < n2
            invariant
                n1 == s1@.len(),
                n2 == s2@.len(),
                s1@ == self@,
                s2@ == other@,
                0 <= i <= n1,
                0 <= j <= n2,
                base_seq(s1@, s2@) == out@ + base_seq(s1@.skip(i as int), s2@.skip(j as int)),
            decreases n1 + n2 - i - j,
        {
            let ghost r1 = s1@.skip(i as int);
            let ghost r2 = s2@.skip(j as int);
            proof {
                if i < n1 {
                    assert(r1[0] == s1@[i as int]);
                    assert(r1.drop_first() =~= s1@.skip(i as int + 1));
                }
                if j < n2 {
                    assert(r2[0] == s2@[j as int]);
                    assert(r2.drop_first() =~= s2@.skip(j as int + 1));
                }
            }
            if j >= n2 || (i < n1 && self.entries[i].0 < other.entries[j].0) {
                out.push(self.entries[i]);
                proof {
                    if j >= n2 {
                        assert(r2 =~= Seq::<(KeyId, u64)>::empty());
                        assert(base_seq(r1, r2) == r1);
                        assert(r1 =~= seq![s1@[i as int]] + s1@.skip(i as int + 1));
                    } else {
                        assert(base_seq(r1, r2) == seq![r1[0]] + base_seq(r1.drop_first(), r2));
                    }
                    assert(out@ + base_seq(s1@.skip(i as int + 1), r2) =~= out@.drop_last()
                        + base_seq(r1, r2));
                }
                i += 1;
            } else if i >= n1 || other.entries[j].0 < self.entries[i].0 {
                out.push(other.entries[j]);
                proof {
                    if i >= n1 {
                        assert(r1 =~= Seq::<(KeyId, u64)>::empty());
                        assert(base_seq(r1, r2) == r2);
                        assert(r2 =~= seq![s2@[j as int]] + s2@.skip(j as int + 1));
                    } else {
                        assert(base_seq(r1, r2) == seq![r2[0]] + base_seq(r1, r2.drop_first()));
                    }
                    assert(out@ + base_seq(r1, s2@.skip(j as int + 1)) =~= out@.drop_last()
                        + base_seq(r1, r2));
                }
                j += 1;
            } else {
                let a = self.entries[i].1;
                let b = other.entries[j].1;
                let v = if a <= b {
                    a
                } else {
                    b
                };
                out.push((self.entries[i].0, v));
                proof {
                    assert(base_seq(r1, r2) == seq![(r1[0].0, min64(r1[0].1, r2[0].1))]
                        + base_seq(r1.drop_first(), r2.drop_first()));
                    assert(out@ + base_seq(s1@.skip(i as int + 1), s2@.skip(j as int + 1))
                        =~= out@.drop_last() + base_seq(r1, r2));
                }
                i += 1;
                j += 1;
            }
        }
        proof {
            assert(s1@.skip(n1 as int) =~= Seq::<(KeyId, u64)>::empty());
            assert(s2@.skip(n2 as int) =~= Seq::<(KeyId, u64)>::empty());
            assert(out@ =~= out@ + base_seq(s1@.skip(n1 as int), s2@.skip(n2 as int)));
            lemma_base_seq_sorted(self@, other@);
        }
        OrdinaryClock { entries: out }
    }

    /// The common causal lower bound of a clock list: every key that
    /// appears anywhere maps to the smallest counter among exactly the
    /// clocks that hold it. A clock omitting a key does not drag the
    /// minimum to 0 — unlike `merge`, absence contributes nothing here.
    pub fn base(others: &Vec<OrdinaryClock>) -> (r: Self)
        requires
            forall|i: int| 0 <= i < others@.len() ==> (#[trigger] others@[i]).wf(),
        ensures
            r.wf(),
            r@ == base_all(others@),
            forall|k: KeyId| #[trigger] r.spec_get(k) == deps_min(others@, k),
    {
        let n = others.len();
        let mut acc = OrdinaryClock::new();
        let mut i: usize = 0;
        proof {
            assert(others@.take(0) =~= Seq::<OrdinaryClock>::empty());
        }
        while i < n
            invariant
                n == others@.len(),
                0 <= i <= n,
                forall|j: int| 0 <= j < n ==> (#[trigger] others@[j]).wf(),
                acc.wf(),
                acc@ == base_all(others@.take(i as int)),
            decreases n - i,
        {
            let merged = acc.base_merge(&others[i]);
            proof {
                assert(others@.take(i as int + 1).drop_last() =~= others@.take(i as int));
                assert(others@.take(i as int + 1).last() == others@[i as int]);
            }
            acc = merged;
            i += 1;
        }
        proof {
            assert(others@.take(n as int) =~= others@);
            assert forall|k: KeyId| #[trigger] seq_get(acc@, k) == deps_min(others@, k) by {
                lemma_base_all_get(others@, k);
            }
        }
        acc
    }

    /// The digest bound to this clock's exact causal state: SHA-256 over
    /// the canonical serialization of the sorted entry list.
    pub open spec fn spec_sha256(&self) -> Seq<u8> {
        sha256_of(encoded_entries(self@))
    }

    /// The clock's fingerprint: a SHA-256 digest of the canonical, sorted
    /// serialization of its entries. Two clocks with the same contents
    /// fingerprint identically, however they were built.
    pub fn calculate_sha256(&self) -> (r: [u8; 32])
        ensures
            r@ == self.spec_sha256(),
    {
        let bytes = bincode_entries(&self.entries);
        sha256(&bytes)
    }

    /// The number of explicit entries.
    pub fn len(&self) -> (r: usize)
        ensures
            r == self@.len(),
    {
        self.entries.len()
    }

    /// The entry at position `i`, in increasing key order.
    pub fn entry(&self, i: usize) -> (r: (KeyId, u64))
        requires
            i < self@.len(),
        ensures
            r == self@[i as int],
    {
        self.entries[i]
    }
}

/// Merging is commutative: the order of the two clocks does not matter.
pub proof fn lemma_merge_commutative(a: &OrdinaryClock, b: &OrdinaryClock)
    requires
        a.wf(),
        b.wf(),
    ensures
        merge_seq(a@, b@) == merge_seq(b@, a@),
{
    lemma_merge_seq_sorted(a@, b@);
    lemma_merge_seq_sorted(b@, a@);
    assert forall|k: KeyId| #[trigger] seq_get(merge_seq(a@, b@), k) == seq_get(
        merge_seq(b@, a@),
        k,
    ) by {
        lemma_merge_seq_get(a@, b@, k);
        lemma_merge_seq_get(b@, a@, k);
    }
    lemma_sorted_get_extensional(merge_seq(a@, b@), merge_seq(b@, a@));
}

/// Merging is associative: grouping does not matter.
pub proof fn lemma_merge_associative(a: &OrdinaryClock, b: &OrdinaryClock, c: &OrdinaryClock)
    requires
        a.wf(),
        b.wf(),
        c.wf(),
    ensures
        merge_seq(merge_seq(a@, b@), c@) == merge_seq(a@, merge_seq(b@, c@)),
{
    lemma_merge_seq_sorted(a@, b@);
    lemma_merge_seq_sorted(b@, c@);
    lemma_merge_seq_sorted(merge_seq(a@, b@), c@);
    lemma_merge_seq_sorted(a@, merge_seq(b@, c@));
    assert forall|k: KeyId| #[trigger] seq_get(merge_seq(merge_seq(a@, b@), c@), k) == seq_get(
        merge_seq(a@, merge_seq(b@, c@)),
        k,
    ) by {
        lemma_merge_seq_get(a@, b@, k);
        lemma_merge_seq_get(b@, c@, k);
        lemma_merge_seq_get(merge_seq(a@, b@), c@, k);
        lemma_merge_seq_get(a@, merge_seq(b@, c@), k);
    }
    lemma_sorted_get_extensional(merge_seq(merge_seq(a@, b@), c@), merge_seq(a@, merge_seq(b@, c@)));
}

/// Merging is idempotent: a clock merged with itself is unchanged.
pub proof fn lemma_merge_idempotent(a: &OrdinaryClock)
    requires
        a.wf(),
    ensures
        merge_seq(a@, a@) == a@,
{
    lemma_merge_seq_sorted(a@, a@);
    assert forall|k: KeyId| #[trigger] seq_get(merge_seq(a@, a@), k) == seq_get(a@, k) by {
        lemma_merge_seq_get(a@, a@, k);
    }
    lemma_sorted_get_extensional(merge_seq(a@, a@), a@);
}

/// The empty genesis clock is the identity of merging.
pub proof fn lemma_merge_identity(a: &OrdinaryClock, g: &OrdinaryClock)
    requires
        a.wf(),
        g@ == Seq::<(KeyId, u64)>::empty(),
    ensures
        merge_seq(a@, g@) == a@,
        merge_seq(g@, a@) == a@,
{
}

/// A merge dominates both of its inputs: compared with either input it is
/// Equal or Greater, never Less and never concurrent.
pub proof fn lemma_merge_dominates(a: &OrdinaryClock, b: &OrdinaryClock)
    requires
        a.wf(),
        b.wf(),
    ensures
        cmp_seq(merge_seq(a@, b@), a@) == Some(core::cmp::Ordering::Equal) || cmp_seq(
            merge_seq(a@, b@),
            a@,
        ) == Some(core::cmp::Ordering::Greater),
        cmp_seq(merge_seq(a@, b@), b@) == Some(core::cmp::Ordering::Equal) || cmp_seq(
            merge_seq(a@, b@),
            b@,
        ) == Some(core::cmp::Ordering::Greater),
{
    let m = merge_seq(a@, b@);
    assert forall|j: int| 0 <= j < a@.len() implies ge_at(m, #[trigger] a@[j]) by {
        lemma_get_index(a@, j);
        lemma_merge_seq_get(a@, b@, a@[j].0);
    }
    assert forall|j: int| 0 <= j < b@.len() implies ge_at(m, #[trigger] b@[j]) by {
        lemma_get_index(b@, j);
        lemma_merge_seq_get(a@, b@, b@[j].0);
    }
}

/// The fingerprint is deterministic: clocks holding the same dimensions
/// and counters are one canonical value and hash identically, whatever
/// order they were built in.
pub proof fn lemma_fingerprint_deterministic(a: &OrdinaryClock, b: &OrdinaryClock)
    requires
        a.wf(),
        b.wf(),
        forall|k: KeyId| #[trigger] a.spec_get(k) == b.spec_get(k),
    ensures
        a@ == b@,
        a.spec_sha256() == b.spec_sha256(),
{
    assert forall|k: KeyId| #[trigger] seq_get(a@, k) == seq_get(b@, k) by {
        assert(a.spec_get(k) == b.spec_get(k));
    }
    lemma_sorted_get_extensional(a@, b@);
}

/// Relies on bincode's `serialize` with the default options: the produced
/// bytes are a deterministic function of the entry list alone, and
/// serializing a vector of integer pairs into memory does not fail.
#[verifier::external_body]
fn bincode_entries(entries: &Vec<(KeyId, u64)>) -> (r: Vec<u8>)
    ensures
        r@ == encoded_entries(entries@),
{
    bincode::options().serialize(entries).expect("serializing integer pairs cannot fail")
}

/// Relies on sha2's SHA-256 implementation: the 32-byte digest is a
/// function of the input bytes alone.
#[verifier::external_body]
fn sha256(bytes: &Vec<u8>) -> (r: [u8; 32])
    ensures
        r@ == sha256_of(bytes@),
{
    let mut hasher = Sha256::new();
    hasher.update(bytes);
    hasher.finalize().into()
}

impl Clock for OrdinaryClock {
    /// The sum of all counters: a lossy scalar reduction.
    open spec fn reduce_spec(&self) -> int {
        sum_seq(self@)
    }

    open spec fn reduce_in_range(&self) -> bool {
        sum_seq(self@) <= u64::MAX
    }

    fn reduce(&self) -> (r: LamportClock) {
        let n = self.entries.len();
        let mut total: u64 = 0;
        let mut i: usize = 0;
        proof {
            assert(self@.take(0) =~= Seq::<(KeyId, u64)>::empty());
        }
        while i < n
            invariant
                n == self@.len(),
                0 <= i <= n,
                sum_seq(self@) <= u64::MAX,
                total == sum_seq(self@.take(i as int)),
            decreases n - i,
        {
            proof {
                assert(self@.take(i as int + 1).drop_last() =~= self@.take(i as int));
                assert(self@.take(i as int + 1).last() == self@[i as int]);
                lemma_sum_take_le(self@, i as int + 1);
            }
            total = total + self.entries[i].1;
            i += 1;
        }
        proof {
            assert(self@.take(n as int) =~= self@);
        }
        total
    }
}

impl Default for OrdinaryClock {
    /// The empty genesis clock.
    fn default() -> (r: Self)
        ensures
            r.wf(),
            r@ =~= Seq::<(KeyId, u64)>::empty(),
            r.spec_is_genesis(),
    {
        OrdinaryClock::new()
    }
}

impl PartialEq for OrdinaryClock {
    /// Structural equality of the canonical entry lists; for well-formed
    /// clocks this coincides with equality of the logical mappings.
    fn eq(&self, other: &Self) -> (r: bool) {
        let n = self.entries.len();
        if n != other.entries.len() {
            proof {
                assert(self@.len() != other@.len());
                assert(self@ != other@);
            }
            return false;
        }
        let mut i: usize = 0;
        while i < n
            invariant
                n == self@.len(),
                n == other@.len(),
                0 <= i <= n,
                forall|j: int| 0 <= j < i ==> self@[j] == other@[j],
            decreases n - i,
        {
            if self.entries[i].0 != other.entries[i].0 || self.entries[i].1 != other.entries[i].1 {
                proof {
                    assert(self@[i as int] != other@[i as int]);
                    assert(self@ != other@);
                }
                return false;
            }
            i += 1;
        }
        proof {
            assert(self@ =~= other@);
        }
        true
    }
}

impl vstd::std_specs::cmp::PartialEqSpecImpl for OrdinaryClock {
    open spec fn obeys_eq_spec() -> bool {
        true
    }

    open spec fn eq_spec(&self, other: &Self) -> bool {
        self@ == other@
    }
}

impl Eq for OrdinaryClock {

}

} // verus!
