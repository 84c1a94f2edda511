//! The key-value store: keys map to a value and an optional absolute
//! expiry time. Expiry is lazy: an expired entry is removed when it is read.
//!
//! Time is a count of milliseconds on a clock that the caller reads; the
//! store never reads a clock itself.

use vstd::prelude::*;

verus! {

/// One stored key, its value and its expiry time.
pub struct Entry {
    pub key: Vec<u8>,
    pub value: Vec<u8>,
    pub expires_at: Option<u64>,
}

/// The key-value store.
pub struct Store {
    entries: Vec<Entry>,
}

/// Whether the key `k` stands in `es`.
pub open spec fn has_key(es: Seq<Entry>, k: Seq<u8>) -> bool {
    exists|i: int| 0 <= i < es.len() && (#[trigger] es[i]).key@ == k
}

/// No key stands twice in `es`.
pub open spec fn unique_keys(es: Seq<Entry>) -> bool {
    forall|i: int, j: int|
        0 <= i < es.len() && 0 <= j < es.len() && i != j ==> (#[trigger] es[i]).key@ != (#[trigger] es[j]).key@
}

/// The map from key to (value, expiry) that `es` holds.
pub open spec fn model(es: Seq<Entry>) -> Map<Seq<u8>, (Seq<u8>, Option<u64>)> {
    Map::new(
        |k: Seq<u8>| has_key(es, k),
        |k: Seq<u8>|
            {
                let i = choose|i: int| 0 <= i < es.len() && (#[trigger] es[i]).key@ == k;
                (es[i].value@, es[i].expires_at)
            },
    )
}

/// The absolute expiry of a value set at `now` with relative expiry `px`;
/// a sum beyond the clock's range stands for "never".
pub open spec fn expiry_of(now: u64, px: Option<u64>) -> Option<u64> {
    match px {
        Some(ms) => Some(
            if now + ms > u64::MAX {
                u64::MAX
            } else {
                (now + ms) as u64
            },
        ),
        None => None,
    }
}

/// Whether an entry has expired at `now`: its expiry is strictly in the past.
pub open spec fn expired(e: (Seq<u8>, Option<u64>), now: u64) -> bool {
    match e.1 {
        Some(t) => now > t,
        None => false,
    }
}

/// What a read of `k` at `now` reports.
pub open spec fn lookup(m: Map<Seq<u8>, (Seq<u8>, Option<u64>)>, k: Seq<u8>, now: u64) -> Option<
    Seq<u8>,
> {
    if m.contains_key(k) && !expired(m[k], now) {
        Some(m[k].0)
    } else {
        None
    }
}

/// The store after a read of `k` at `now`: an expired entry is gone.
pub open spec fn after_read(m: Map<Seq<u8>, (Seq<u8>, Option<u64>)>, k: Seq<u8>, now: u64) -> Map<
    Seq<u8>,
    (Seq<u8>, Option<u64>),
> {
    if m.contains_key(k) && expired(m[k], now) {
        m.remove(k)
    } else {
        m
    }
}

/// The store after a write of `k` at `now`: the entry is replaced whole.
pub open spec fn after_write(
    m: Map<Seq<u8>, (Seq<u8>, Option<u64>)>,
    k: Seq<u8>,
    v: Seq<u8>,
    px: Option<u64>,
    now: u64,
) -> Map<Seq<u8>, (Seq<u8>, Option<u64>)> {
    m.insert(k, (v, expiry_of(now, px)))
}

pub open spec fn opt_bytes(o: Option<Vec<u8>>) -> Option<Seq<u8>> {
    match o {
        Some(v) => Some(v@),
        None => None,
    }
}

impl View for Store {
    type V = Map<Seq<u8>, (Seq<u8>, Option<u64>)>;

    closed spec fn view(&self) -> Self::V {
        model(self.entries@)
    }
}

proof fn lemma_model_at(es: Seq<Entry>, i: int)
    requires
        unique_keys(es),
        0 <= i < es.len(),
    ensures
        model(es).contains_key(es[i].key@),
        model(es)[es[i].key@] == (es[i].value@, es[i].expires_at),
{
    let k = es[i].key@;
    assert(has_key(es, k));
    let j = choose|j: int| 0 <= j < es.len() && (#[trigger] es[j]).key@ == k;
    assert(j == i);
}

fn bytes_equal(a: &Vec<u8>, b: &Vec<u8>) -> (r: bool)
    ensures
        r == (a@ == b@),
{
    if a.len() != b.len() {
        return false;
    }
    let mut i: usize = 0;
    while i < a.len()
        invariant
            i <= a@.len(),
            a@.len() == b@.len(),
            forall|j: int| 0 <= j < i ==> a@[j] == b@[j],
        decreases a@.len() - i,
    {
        if a[i] != b[i] {
            return false;
        }
        i += 1;
    }
    assert(a@ =~= b@);
    true
}

fn copy_value(b: &Vec<u8>) -> (r: Vec<u8>)
    ensures
        r@ == b@,
{
    let mut out: Vec<u8> = Vec::new();
    let mut i: usize = 0;
    while i < b.len()
        invariant
            i <= b@.len(),
            out@ == b@.subrange(0, i as int),
        decreases b@.len() - i,
    {
        out.push(b[i]);
        i += 1;
        assert(out@ =~= b@.subrange(0, i as int));
    }
    assert(out@ =~= b@);
    out
}

impl Store {
    /// The store's invariant: no key is held twice.
    pub closed spec fn wf(&self) -> bool {
        unique_keys(self.entries@)
    }

    /// An empty store.
    pub fn new() -> (r: Store)
        ensures
            r.wf(),
            r@ == Map::<Seq<u8>, (Seq<u8>, Option<u64>)>::empty(),
    {
        let r = Store { entries: Vec::new() };
        assert(r@ =~= Map::<Seq<u8>, (Seq<u8>, Option<u64>)>::empty());
        r
    }

    /// Where `key` stands among the entries.
    fn position(&self, key: &Vec<u8>) -> (r: Option<usize>)
        ensures
            match r {
                Some(i) => i < self.entries@.len() && self.entries@[i as int].key@ == key@,
                None => !has_key(self.entries@, key@),
            },
    {
        let mut i: usize = 0;
        while i < self.entries.len()
            invariant
                i <= self.entries@.len(),
                forall|j: int| 0 <= j < i ==> (#[trigger] self.entries@[j]).key@ != key@,
            decreases self.entries@.len() - i,
        {
            if bytes_equal(&self.entries[i].key, key) {
                return Some(i);
            }
            i += 1;
        }
        None
    }

    /// Stores `value` under `key` at time `now`, replacing any earlier entry
    /// and its expiry; with `px`, the entry expires `px` milliseconds after
    /// `now`.
    pub fn set(&mut self, key: Vec<u8>, value: Vec<u8>, px: Option<u64>, now: u64)
        requires
            old(self).wf(),
        ensures
            final(self).wf(),
            final(self)@ == after_write(old(self)@, key@, value@, px, now),
    {
        let expires_at = match px {
            Some(ms) => Some(now.saturating_add(ms)),
            None => None,
        };
        let ghost k = key@;
        let ghost target = after_write(old(self)@, key@, value@, px, now);
        let ghost es0 = self.entries@;
        match self.position(&key) {
            Some(i) => {
                self.entries.set(i, Entry { key, value, expires_at });
                let ghost es = self.entries@;
                assert(unique_keys(es)) by {
                    assert forall|a: int, b: int|
                        0 <= a < es.len() && 0 <= b < es.len() && a != b implies (#[trigger] es[a]).key@
                        != (#[trigger] es[b]).key@ by {
                        assert(es0[a].key@ == es[a].key@);
                        assert(es0[b].key@ == es[b].key@);
                    }
                }
                assert forall|k2: Seq<u8>| #[trigger] has_key(es, k2) == target.contains_key(k2) by {
                    if has_key(es0, k2) {
                        let j = choose|j: int| 0 <= j < es0.len() && (#[trigger] es0[j]).key@ == k2;
                        assert(es[j].key@ == k2);
                    }
                    if has_key(es, k2) {
                        let j = choose|j: int| 0 <= j < es.len() && (#[trigger] es[j]).key@ == k2;
                        assert(es0[j].key@ == k2);
                    }
                }
                assert forall|k2: Seq<u8>| #[trigger] target.contains_key(k2) implies model(es)[k2]
                    == target[k2] by {
                    assert(has_key(es, k2));
                    let j = choose|j: int| 0 <= j < es.len() && (#[trigger] es[j]).key@ == k2;
                    lemma_model_at(es, j);
                    if k2 != k {
                        lemma_model_at(es0, j);
                    }
                }
                assert(model(es) =~= target);
            },
            None => {
                self.entries.push(Entry { key, value, expires_at });
                let ghost es = self.entries@;
                let ghost n = es0.len() as int;
                assert(unique_keys(es)) by {
                    assert forall|a: int, b: int|
                        0 <= a < es.len() && 0 <= b < es.len() && a != b implies (#[trigger] es[a]).key@
                        != (#[trigger] es[b]).key@ by {
                        if a < n && b < n {
                            assert(es0[a] == es[a]);
                            assert(es0[b] == es[b]);
                        } else if a < n {
                            assert(es0[a] == es[a]);
                        } else {
                            assert(es0[b] == es[b]);
                        }
                    }
                }
                assert forall|k2: Seq<u8>| #[trigger] has_key(es, k2) == target.contains_key(k2) by {
                    if has_key(es0, k2) {
                        let j = choose|j: int| 0 <= j < es0.len() && (#[trigger] es0[j]).key@ == k2;
                        assert(es[j] == es0[j]);
                    }
                    if has_key(es, k2) && k2 != k {
                        let j = choose|j: int| 0 <= j < es.len() && (#[trigger] es[j]).key@ == k2;
                        assert(es0[j] == es[j]);
                    }
                    assert(es[n].key@ == k);
                }
                assert forall|k2: Seq<u8>| #[trigger] target.contains_key(k2) implies model(es)[k2]
                    == target[k2] by {
                    assert(has_key(es, k2));
                    let j = choose|j: int| 0 <= j < es.len() && (#[trigger] es[j]).key@ == k2;
                    lemma_model_at(es, j);
                    if k2 != k {
                        assert(es0[j] == es[j]);
                        lemma_model_at(es0, j);
                    }
                }
                assert(model(es) =~= target);
            },
        }
    }

    /// Reads `key` at time `now`: its value, unless it is missing or has
    /// expired; an expired entry is removed.
    pub fn get(&mut self, key: &Vec<u8>, now: u64) -> (r: Option<Vec<u8>>)
        requires
            old(self).wf(),
        ensures
            final(self).wf(),
            opt_bytes(r) == lookup(old(self)@, key@, now),
            final(self)@ == after_read(old(self)@, key@, now),
    {
        let ghost es0 = self.entries@;
        let ghost k = key@;
        match self.position(key) {
            None => None,
            Some(i) => {
                proof {
                    lemma_model_at(es0, i as int);
                }
                let is_expired = match self.entries[i].expires_at {
                    Some(t) => now > t,
                    None => false,
                };
                if is_expired {
                    self.entries.remove(i);
                    let ghost es = self.entries@;
                    assert(unique_keys(es)) by {
                        assert forall|a: int, b: int|
                            0 <= a < es.len() && 0 <= b < es.len() && a != b implies (#[trigger] es[a]).key@
                            != (#[trigger] es[b]).key@ by {
                            let a0 = if a < i { a } else { a + 1 };
                            let b0 = if b < i { b } else { b + 1 };
                            assert(es[a] == es0[a0]);
                            assert(es[b] == es0[b0]);
                        }
                    }
                    let ghost m = model(es0).remove(k);
                    assert forall|k2: Seq<u8>| #[trigger] has_key(es, k2) == m.contains_key(k2) by {
                        if has_key(es0, k2) && k2 != k {
                            let j = choose|j: int| 0 <= j < es0.len() && (#[trigger] es0[j]).key@ == k2;
                            assert(j != i);
                            let j2 = if j < i { j } else { j - 1 };
                            assert(es[j2] == es0[j]);
                        }
                        if has_key(es, k2) {
                            let j = choose|j: int| 0 <= j < es.len() && (#[trigger] es[j]).key@ == k2;
                            let j0 = if j < i { j } else { j + 1 };
                            assert(es[j] == es0[j0]);
                            assert(j0 != i);
                        }
                    }
                    assert forall|k2: Seq<u8>| #[trigger] m.contains_key(k2) implies model(es)[k2]
                        == m[k2] by {
                        assert(has_key(es, k2));
                        let j = choose|j: int| 0 <= j < es.len() && (#[trigger] es[j]).key@ == k2;
                        lemma_model_at(es, j);
                        let j0 = if j < i { j } else { j + 1 };
                        assert(es[j] == es0[j0]);
                        lemma_model_at(es0, j0);
                    }
                    assert(model(es) =~= m);
                    None
                } else {
                    Some(copy_value(&self.entries[i].value))
                }
            },
        }
    }
}

/// A read of a key that was never stored reports a miss and leaves the
/// store as it was, so a second read misses too.
pub proof fn law_miss_repeats(
    m: Map<Seq<u8>, (Seq<u8>, Option<u64>)>,
    k: Seq<u8>,
    t1: u64,
    t2: u64,
)
    requires
        !m.contains_key(k),
    ensures
        lookup(m, k, t1) is None,
        after_read(m, k, t1) == m,
        lookup(after_read(m, k, t1), k, t2) is None,
{
}

/// A value stored with a relative expiry of `px` milliseconds at `t_set`
/// is read back at any time up to `t_set + px`, and reads as missing (and
/// is removed) at any later time.
pub proof fn law_expiry(
    m: Map<Seq<u8>, (Seq<u8>, Option<u64>)>,
    k: Seq<u8>,
    v: Seq<u8>,
    px: u64,
    t_set: u64,
    t_get: u64,
)
    ensures
        t_get <= t_set + px ==> lookup(after_write(m, k, v, Some(px), t_set), k, t_get) == Some(v),
        t_get > t_set + px ==> lookup(after_write(m, k, v, Some(px), t_set), k, t_get) is None
            && !after_read(after_write(m, k, v, Some(px), t_set), k, t_get).contains_key(k),
{
}

/// A second write of a key without expiry replaces the value and drops the
/// expiry of the first: the new value is read back at any time.
pub proof fn law_overwrite_drops_expiry(
    m: Map<Seq<u8>, (Seq<u8>, Option<u64>)>,
    k: Seq<u8>,
    v1: Seq<u8>,
    v2: Seq<u8>,
    px: u64,
    t1: u64,
    t2: u64,
    t3: u64,
)
    ensures
        lookup(after_write(after_write(m, k, v1, Some(px), t1), k, v2, None, t2), k, t3) == Some(
            v2,
        ),
{
}

} // verus!
