//! The keyspace: keys mapped to values with an optional time to live, expired
//! lazily when read.
use vstd::prelude::*;

verus! {

/// What the keyspace holds for one key.
pub struct EntryModel {
    pub value: Seq<u8>,
    /// The clock reading, in milliseconds, when the value was stored.
    pub stored_at: u64,
    /// How long after `stored_at` the value stays visible, in milliseconds.
    pub ttl: Option<u64>,
}

/// An entry is visible at `now` when it has no time to live or it has not
/// run out yet.
pub open spec fn visible(e: EntryModel, now: u64) -> bool {
    match e.ttl {
        None => true,
        Some(d) => now - e.stored_at < d,
    }
}

/// What a read of `k` at `now` returns.
pub open spec fn read_model(m: Map<Seq<u8>, EntryModel>, k: Seq<u8>, now: u64) -> Option<Seq<u8>> {
    if m.contains_key(k) && visible(m[k], now) {
        Some(m[k].value)
    } else {
        None
    }
}

/// The keyspace after a read of `k` at `now`: an expired entry is gone.
pub open spec fn after_read(m: Map<Seq<u8>, EntryModel>, k: Seq<u8>, now: u64) -> Map<
    Seq<u8>,
    EntryModel,
> {
    if m.contains_key(k) && !visible(m[k], now) {
        m.remove(k)
    } else {
        m
    }
}

/// The keyspace after `k` is set to `v` at `now`.
pub open spec fn after_write(
    m: Map<Seq<u8>, EntryModel>,
    k: Seq<u8>,
    v: Seq<u8>,
    ttl: Option<u64>,
    now: u64,
) -> Map<Seq<u8>, EntryModel> {
    m.insert(k, EntryModel { value: v, stored_at: now, ttl })
}

/// A stored value with the time it was stored and its time to live.
pub struct Entry {
    pub value: Vec<u8>,
    pub stored_at: u64,
    pub ttl: Option<u64>,
}

impl Entry {
    pub open spec fn view(&self) -> EntryModel {
        EntryModel { value: self.value@, stored_at: self.stored_at, ttl: self.ttl }
    }
}

struct Slot {
    key: Vec<u8>,
    entry: Entry,
}

/// The keyspace. Keys are unique; their order carries no meaning.
pub struct Keyspace {
    slots: Vec<Slot>,
    model: Ghost<Map<Seq<u8>, EntryModel>>,
}

/// Byte-wise equality.
pub fn bytes_equal(a: &[u8], b: &[u8]) -> (r: bool)
    ensures
        r == (a@ == b@),
{
    if a.len() != b.len() {
        return false;
    }
    let mut i: usize = 0;
    while i < a.len()
        invariant
            a@.len() == b@.len(),
            i <= a@.len(),
            forall|j: int| 0 <= j < i ==> a@[j] == b@[j],
        decreases a@.len() - i,
    {
        if a[i] != b[i] {
            return false;
        }
        i = i + 1;
    }
    assert(a@ =~= b@);
    true
}

fn copy_bytes(a: &[u8]) -> (r: Vec<u8>)
    ensures
        r@ == a@,
{
    let mut out: Vec<u8> = Vec::new();
    let mut i: usize = 0;
    while i < a.len()
        invariant
            i <= a@.len(),
            out@ == a@.subrange(0, i as int),
        decreases a@.len() - i,
    {
        assert(out@.push(a@[i as int]) =~= a@.subrange(0, i + 1));
        out.push(a[i]);
        i = i + 1;
    }
    assert(a@.subrange(0, i as int) =~= a@);
    out
}

impl Keyspace {
    pub closed spec fn view(&self) -> Map<Seq<u8>, EntryModel> {
        self.model@
    }

    pub closed spec fn wf(&self) -> bool {
        let s = self.slots@;
        let m = self.model@;
        &&& forall|i: int, j: int|
            0 <= i < j < s.len() ==> (#[trigger] s[i]).key@ != (#[trigger] s[j]).key@
        &&& forall|i: int|
            0 <= i < s.len() ==> m.contains_key((#[trigger] s[i]).key@) && m[s[i].key@]
                == s[i].entry.view()
        &&& forall|k: Seq<u8>|
            #[trigger] m.contains_key(k) ==> exists|i: int| 0 <= i < s.len() && s[i].key@ == k
    }

    /// An empty keyspace.
    pub fn new() -> (r: Keyspace)
        ensures
            r.wf(),
            r@ == Map::<Seq<u8>, EntryModel>::empty(),
    {
        Keyspace { slots: Vec::new(), model: Ghost(Map::empty()) }
    }

    /// The index of the slot that holds `key`, if any.
    fn find(&self, key: &[u8]) -> (r: Option<usize>)
        requires
            self.wf(),
        ensures
            match r {
                Some(i) => i < self.slots@.len() && self.slots@[i as int].key@ == key@,
                None => !self@.contains_key(key@),
            },
    {
        let mut i: usize = 0;
        while i < self.slots.len()
            invariant
                self.wf(),
                i <= self.slots@.len(),
                forall|j: int| 0 <= j < i ==> (#[trigger] self.slots@[j]).key@ != key@,
            decreases self.slots@.len() - i,
        {
            if bytes_equal(self.slots[i].key.as_slice(), key) {
                return Some(i);
            }
            i = i + 1;
        }
        None
    }

    /// Reads `key` at clock reading `now`: its value unless it is absent or
    /// has expired. An expired entry is removed.
    pub fn get(&mut self, key: &[u8], now: u64) -> (r: Option<Vec<u8>>)
        requires
            old(self).wf(),
        ensures
            final(self).wf(),
            r matches Some(v) ==> read_model(old(self)@, key@, now) == Some(v@),
            r is None ==> read_model(old(self)@, key@, now) is None,
            final(self)@ == after_read(old(self)@, key@, now),
    {
        match self.find(key) {
            None => None,
            Some(i) => {
                let expired = match self.slots[i].entry.ttl {
                    None => false,
                    Some(d) => now >= self.slots[i].entry.stored_at && now
                        - self.slots[i].entry.stored_at >= d,
                };
                if expired {
                    let ghost s = self.slots@;
                    let ghost k = s[i as int].key@;
                    let last = self.slots.len() - 1;
                    let _gone = self.slots.swap_remove(i);
                    self.model = Ghost(self.model@.remove(k));
                    proof {
                        let t = self.slots@;
                        assert forall|j: int| 0 <= j < t.len() implies (#[trigger] t[j]) == (if j
                            == i {
                            s[last as int]
                        } else {
                            s[j]
                        }) by {}
                        assert forall|j: int| 0 <= j < t.len() implies (#[trigger] t[j]).key@
                            != k by {
                            if j == i {
                                assert(s[last as int].key@ != s[i as int].key@);
                            } else {
                                assert(s[j].key@ != s[i as int].key@);
                            }
                        }
                        assert forall|a: int, b: int|
                            0 <= a < b < t.len() implies (#[trigger] t[a]).key@ != (
                        #[trigger] t[b]).key@ by {
                            if a == i {
                                assert(s[last as int].key@ != s[b].key@);
                            } else if b == i {
                                assert(s[a].key@ != s[last as int].key@);
                            } else {
                                assert(s[a].key@ != s[b].key@);
                            }
                        }
                        assert forall|q: Seq<u8>| #[trigger]
                            self.model@.contains_key(q) implies exists|j: int|
                            0 <= j < t.len() && t[j].key@ == q by {
                            let j0 = choose|j: int| 0 <= j < s.len() && s[j].key@ == q;
                            if j0 == last {
                                assert(t[i as int].key@ == q);
                            } else {
                                assert(t[j0].key@ == q);
                            }
                        }
                    }
                    None
                } else {
                    let v = copy_bytes(self.slots[i].entry.value.as_slice());
                    Some(v)
                }
            },
        }
    }

    /// Stores `value` under `key` at clock reading `now`, replacing what was
    /// there, with the time to live `ttl` counted from `now`.
    pub fn set(&mut self, key: Vec<u8>, value: Vec<u8>, ttl: Option<u64>, now: u64)
        requires
            old(self).wf(),
        ensures
            final(self).wf(),
            final(self)@ == after_write(old(self)@, key@, value@, ttl, now),
    {
        let ghost k = key@;
        let ghost e = EntryModel { value: value@, stored_at: now, ttl };
        let ghost s = self.slots@;
        match self.find(key.as_slice()) {
            Some(i) => {
                self.slots.set(i, Slot { key, entry: Entry { value, stored_at: now, ttl } });
                self.model = Ghost(self.model@.insert(k, e));
                proof {
                    let t = self.slots@;
                    assert forall|a: int, b: int|
                        0 <= a < b < t.len() implies (#[trigger] t[a]).key@ != (
                    #[trigger] t[b]).key@ by {
                        assert(s[a].key@ != s[b].key@);
                    }
                    assert forall|j: int| 0 <= j < t.len() implies self.model@.contains_key(
                        (#[trigger] t[j]).key@,
                    ) && self.model@[t[j].key@] == t[j].entry.view() by {
                        if j != i {
                            assert(s[j].key@ != s[i as int].key@);
                        }
                    }
                    assert forall|q: Seq<u8>| #[trigger]
                        self.model@.contains_key(q) implies exists|j: int|
                        0 <= j < t.len() && t[j].key@ == q by {
                        if q != k {
                            let j0 = choose|j: int| 0 <= j < s.len() && s[j].key@ == q;
                            assert(t[j0].key@ == q);
                        } else {
                            assert(t[i as int].key@ == q);
                        }
                    }
                }
            },
            None => {
                self.slots.push(Slot { key, entry: Entry { value, stored_at: now, ttl } });
                self.model = Ghost(self.model@.insert(k, e));
                proof {
                    let t = self.slots@;
                    let n = s.len() as int;
                    assert(t[n].key@ == k);
                    assert forall|j: int| 0 <= j < n implies (#[trigger] t[j]).key@ != k by {
                        assert(t[j] == s[j]);
                    }
                    assert forall|a: int, b: int|
                        0 <= a < b < t.len() implies (#[trigger] t[a]).key@ != (
                    #[trigger] t[b]).key@ by {
                        if b < n {
                            assert(s[a].key@ != s[b].key@);
                        }
                    }
                    assert forall|j: int| 0 <= j < t.len() implies self.model@.contains_key(
                        (#[trigger] t[j]).key@,
                    ) && self.model@[t[j].key@] == t[j].entry.view() by {
                        if j < n {
                            assert(t[j] == s[j]);
                        }
                    }
                    assert forall|q: Seq<u8>| #[trigger]
                        self.model@.contains_key(q) implies exists|j: int|
                        0 <= j < t.len() && t[j].key@ == q by {
                        if q != k {
                            let j0 = choose|j: int| 0 <= j < s.len() && s[j].key@ == q;
                            assert(t[j0] == s[j0]);
                        } else {
                            assert(t[n].key@ == q);
                        }
                    }
                }
            },
        }
    }
}

/// A value written with no time to live, or read back before its time to
/// live has run out, reads back as written.
pub proof fn lemma_write_then_read(
    m: Map<Seq<u8>, EntryModel>,
    k: Seq<u8>,
    v: Seq<u8>,
    ttl: Option<u64>,
    written_at: u64,
    read_at: u64,
)
    requires
        ttl matches Some(d) ==> read_at - written_at < d,
    ensures
        read_model(after_write(m, k, v, ttl, written_at), k, read_at) == Some(v),
{
}

/// Once its time to live has run out, a value reads as absent, and it stays
/// absent on every later read.
pub proof fn lemma_expired_stays_absent(
    m: Map<Seq<u8>, EntryModel>,
    k: Seq<u8>,
    v: Seq<u8>,
    d: u64,
    written_at: u64,
    first_read: u64,
    second_read: u64,
)
    requires
        first_read - written_at >= d,
    ensures
        read_model(after_write(m, k, v, Some(d), written_at), k, first_read) is None,
        read_model(
            after_read(after_write(m, k, v, Some(d), written_at), k, first_read),
            k,
            second_read,
        ) is None,
{
}

/// A write with no time to live replaces an earlier expiring value for good:
/// every later read returns the new value.
pub proof fn lemma_overwrite_clears_ttl(
    m: Map<Seq<u8>, EntryModel>,
    k: Seq<u8>,
    v1: Seq<u8>,
    v2: Seq<u8>,
    d: u64,
    first_write: u64,
    second_write: u64,
    read_at: u64,
)
    ensures
        read_model(
            after_write(after_write(m, k, v1, Some(d), first_write), k, v2, None, second_write),
            k,
            read_at,
        ) == Some(v2),
{
}

/// The keyspace after the writes of `values` to `k`, in that order, with no
/// time to live.
pub open spec fn write_all(m: Map<Seq<u8>, EntryModel>, k: Seq<u8>, values: Seq<Seq<u8>>, now: u64) -> Map<
    Seq<u8>,
    EntryModel,
>
    decreases values.len(),
{
    if values.len() == 0 {
        m
    } else {
        after_write(write_all(m, k, values.drop_last(), now), k, values.last(), None, now)
    }
}

/// Whatever order competing writes of one key are applied in, a read returns
/// exactly one of the values written, whole: the last one applied.
pub proof fn lemma_competing_writes(
    m: Map<Seq<u8>, EntryModel>,
    k: Seq<u8>,
    values: Seq<Seq<u8>>,
    now: u64,
    read_at: u64,
)
    requires
        values.len() > 0,
    ensures
        read_model(write_all(m, k, values, now), k, read_at) == Some(values.last()),
        values.contains(values.last()),
{
    assert(values[values.len() - 1] == values.last());
}

} // verus!
