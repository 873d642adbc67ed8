//! The asset cache's state machine: a key is `Empty` (nothing known),
//! `Calling` (a fetch is in flight) or `Stored` (bytes kept for the
//! session). A non-blocking probe of an `Empty` key dispatches at most one
//! fetch; further probes wait until the fetch stores its outcome.

use vstd::prelude::*;

verus! {

#[allow(clippy::module_name_repetitions)]
pub type ByteCacher = Cacher<Vec<u8>>;

/// What the cache knows of one key.
#[derive(Clone, Copy, Debug)]
pub enum InternalCacheState<T> {
    /// there's a stored value
    Stored(T),
    /// there's currently a task trying to grab the data
    Calling,
    /// there's currently nothing happening
    Empty,
}

impl<T> InternalCacheState<T> {
    /// The stored value, if the state holds one.
    pub fn try_stored(self) -> (r: Option<T>)
        ensures
            match self {
                InternalCacheState::Stored(t) => r == Some(t),
                _ => r is None,
            },
    {
        match self {
            InternalCacheState::Stored(t) => Some(t),
            _ => None,
        }
    }
}

/// The key-to-state store. The fetch itself is outside work; the store only
/// decides, per key, whether bytes are ready, a fetch is owed, or one is
/// already in flight.
pub struct Cacher<T> {
    inner: Vec<(String, InternalCacheState<T>)>,
}

/// The state stored under `k`, an absent key being `Empty`.
pub open spec fn seq_lookup<T>(s: Seq<(String, InternalCacheState<T>)>, k: Seq<char>) -> InternalCacheState<T>
    decreases s.len(),
{
    if s.len() == 0 {
        InternalCacheState::Empty
    } else if s[0].0@ == k {
        s[0].1
    } else {
        seq_lookup(s.drop_first(), k)
    }
}

impl<T> Cacher<T> {
    /// What the cache knows of key `k`.
    pub closed spec fn lookup(self, k: Seq<char>) -> InternalCacheState<T> {
        seq_lookup(self.inner@, k)
    }

    /// Each key is stored at most once.
    pub closed spec fn wf(self) -> bool {
        forall|a: int, b: int|
            0 <= a < b < self.inner@.len() ==> #[trigger] self.inner@[a].0@ != #[trigger] self.inner@[b].0@
    }

    pub fn new() -> (r: Self)
        ensures
            forall|k: Seq<char>| r.lookup(k) is Empty,
            r.wf(),
    {
        Cacher { inner: Vec::new() }
    }

    /// The position of `key`, if present.
    fn find(&self, key: &str) -> (r: Option<usize>)
        requires
            self.wf(),
        ensures
            match r {
                Some(i) => i < self.inner@.len() && self.inner@[i as int].0@ == key@
                    && self.lookup(key@) == self.inner@[i as int].1,
                None => {
                    &&& forall|i: int|
                        0 <= i < self.inner@.len() ==> #[trigger] self.inner@[i].0@ != key@
                    &&& self.lookup(key@) is Empty
                },
            },
    {
        let pat = String::from_str(key);
        let mut i: usize = 0;
        while i < self.inner.len()
            invariant
                self.wf(),
                i <= self.inner@.len(),
                pat@ == key@,
                forall|j: int| 0 <= j < i ==> #[trigger] self.inner@[j].0@ != key@,
            decreases self.inner@.len() - i,
        {
            if self.inner[i].0 == pat {
                proof {
                    lemma_seq_lookup_at(self.inner@, key@, i as int);
                }
                return Some(i);
            }
            i = i + 1;
        }
        proof {
            lemma_seq_lookup_absent(self.inner@, key@);
        }
        None
    }

    /// Write `state` under `key`, keeping every other key's state.
    fn put(&mut self, key: &str, state: InternalCacheState<T>)
        requires
            old(self).wf(),
        ensures
            final(self).wf(),
            final(self).lookup(key@) == state,
            forall|k: Seq<char>| k != key@ ==> final(self).lookup(k) == old(self).lookup(k),
    {
        let ghost olds = self.inner@;
        match self.find(key) {
            Some(i) => {
                self.inner[i] = (String::from_str(key), state);
                proof {
                    assert(self.inner@ =~= olds.update(i as int, self.inner@[i as int]));
                    lemma_seq_lookup_update(olds, key@, i as int, self.inner@[i as int]);
                }
            },
            None => {
                self.inner.push((String::from_str(key), state));
                proof {
                    lemma_seq_lookup_push(olds, key@, state, self.inner@);
                }
            },
        }
    }
}

/// Copy a byte vector.
fn clone_bytes(v: &Vec<u8>) -> (r: Vec<u8>)
    ensures
        r@ == v@,
{
    let mut out: Vec<u8> = Vec::new();
    let mut i: usize = 0;
    while i < v.len()
        invariant
            i <= v@.len(),
            out@ == v@.subrange(0, i as int),
        decreases v@.len() - i,
    {
        out.push(v[i]);
        i = i + 1;
        proof {
            assert(out@ =~= v@.subrange(0, i as int));
        }
    }
    proof {
        assert(out@ =~= v@);
    }
    out
}

/// What a non-blocking probe reports.
#[derive(Debug, PartialEq, Eq)]
pub enum ProbeOutcome {
    /// the stored bytes, copied out
    Ready(Vec<u8>),
    /// nothing known: the caller owes one fetch dispatch for this key
    StartFetch,
    /// a fetch is already in flight: dispatch nothing
    InFlight,
}

impl ByteCacher {
    /// The non-blocking probe. On a hit it hands the bytes out; on a miss
    /// it marks the key in flight and asks the caller to dispatch exactly
    /// one fetch; while a fetch is in flight it changes nothing.
    pub fn probe(&mut self, key: &str) -> (r: ProbeOutcome)
        requires
            old(self).wf(),
        ensures
            final(self).wf(),
            match old(self).lookup(key@) {
                InternalCacheState::Stored(b) => (r matches ProbeOutcome::Ready(v) && v@ == b@)
                    && *final(self) == *old(self),
                InternalCacheState::Empty => r == ProbeOutcome::StartFetch && final(self).lookup(
                    key@,
                ) is Calling && forall|k: Seq<char>|
                    k != key@ ==> final(self).lookup(k) == old(self).lookup(k),
                InternalCacheState::Calling => r == ProbeOutcome::InFlight && *final(self) == *old(
                    self,
                ),
            },
    {
        match self.find(key) {
            Some(i) => {
                match &self.inner[i].1 {
                    InternalCacheState::Stored(b) => ProbeOutcome::Ready(clone_bytes(b)),
                    InternalCacheState::Calling => ProbeOutcome::InFlight,
                    InternalCacheState::Empty => {
                        self.put(key, InternalCacheState::Calling);
                        ProbeOutcome::StartFetch
                    },
                }
            },
            None => {
                self.put(key, InternalCacheState::Calling);
                ProbeOutcome::StartFetch
            },
        }
    }

    /// Record a finished fetch: store its bytes, or forget the key on
    /// failure so that a later probe may retry.
    pub fn store_fetched(&mut self, key: &str, value: Option<Vec<u8>>)
        requires
            old(self).wf(),
        ensures
            final(self).wf(),
            match value {
                Some(b) => final(self).lookup(key@) == InternalCacheState::Stored(b),
                None => final(self).lookup(key@) is Empty,
            },
            forall|k: Seq<char>| k != key@ ==> final(self).lookup(k) == old(self).lookup(k),
    {
        match value {
            Some(b) => self.put(key, InternalCacheState::Stored(b)),
            None => self.put(key, InternalCacheState::Empty),
        }
    }

    /// The stored bytes of `key`, copied out, without any transition: the
    /// read half of the blocking path.
    pub fn stored_bytes(&self, key: &str) -> (r: Option<Vec<u8>>)
        requires
            self.wf(),
        ensures
            match self.lookup(key@) {
                InternalCacheState::Stored(b) => r matches Some(v) && v@ == b@,
                _ => r is None,
            },
    {
        match self.find(key) {
            Some(i) => match &self.inner[i].1 {
                InternalCacheState::Stored(b) => Some(clone_bytes(b)),
                _ => None,
            },
            None => None,
        }
    }
}

proof fn lemma_seq_lookup_at<T>(s: Seq<(String, InternalCacheState<T>)>, k: Seq<char>, i: int)
    requires
        forall|a: int, b: int| 0 <= a < b < s.len() ==> #[trigger] s[a].0@ != #[trigger] s[b].0@,
        0 <= i < s.len(),
        s[i].0@ == k,
    ensures
        seq_lookup(s, k) == s[i].1,
    decreases s.len(),
{
    if i > 0 {
        assert(s[0].0@ != k);
        assert(s.drop_first()[i - 1] == s[i]);
        lemma_seq_lookup_at(s.drop_first(), k, i - 1);
    }
}

proof fn lemma_seq_lookup_absent<T>(s: Seq<(String, InternalCacheState<T>)>, k: Seq<char>)
    requires
        forall|i: int| 0 <= i < s.len() ==> #[trigger] s[i].0@ != k,
    ensures
        seq_lookup(s, k) is Empty,
    decreases s.len(),
{
    if s.len() > 0 {
        assert forall|i: int| 0 <= i < s.drop_first().len() implies #[trigger] s.drop_first()[i].0@
            != k by {
            assert(s.drop_first()[i] == s[i + 1]);
        }
        lemma_seq_lookup_absent(s.drop_first(), k);
    }
}

proof fn lemma_seq_lookup_update<T>(
    s: Seq<(String, InternalCacheState<T>)>,
    key: Seq<char>,
    i: int,
    kv: (String, InternalCacheState<T>),
)
    requires
        forall|a: int, b: int| 0 <= a < b < s.len() ==> #[trigger] s[a].0@ != #[trigger] s[b].0@,
        0 <= i < s.len(),
        s[i].0@ == key,
        kv.0@ == key,
    ensures
        seq_lookup(s.update(i, kv), key) == kv.1,
        forall|k: Seq<char>| k != key ==> seq_lookup(s.update(i, kv), k) == seq_lookup(s, k),
        forall|a: int, b: int|
            0 <= a < b < s.update(i, kv).len() ==> #[trigger] s.update(i, kv)[a].0@
                != #[trigger] s.update(i, kv)[b].0@,
    decreases s.len(),
{
    let u = s.update(i, kv);
    if i == 0 {
        assert(u[0] == kv);
        assert(u.drop_first() =~= s.drop_first());
        assert forall|k: Seq<char>| k != key implies seq_lookup(u, k) == seq_lookup(s, k) by {
            assert(seq_lookup(u, k) == seq_lookup(u.drop_first(), k));
            assert(seq_lookup(s, k) == seq_lookup(s.drop_first(), k));
        }
    } else {
        assert(u[0] == s[0]);
        assert(s[0].0@ != key);
        assert(u.drop_first() =~= s.drop_first().update(i - 1, kv));
        assert(s.drop_first()[i - 1] == s[i]);
        lemma_seq_lookup_update(s.drop_first(), key, i - 1, kv);
        assert forall|k: Seq<char>| k != key implies seq_lookup(u, k) == seq_lookup(s, k) by {
            if s[0].0@ != k {
                assert(seq_lookup(u, k) == seq_lookup(u.drop_first(), k));
                assert(seq_lookup(s, k) == seq_lookup(s.drop_first(), k));
                assert(seq_lookup(s.drop_first().update(i - 1, kv), k) == seq_lookup(
                    s.drop_first(),
                    k,
                ));
            }
        }
    }
}

proof fn lemma_seq_lookup_push<T>(
    s: Seq<(String, InternalCacheState<T>)>,
    key: Seq<char>,
    state: InternalCacheState<T>,
    u: Seq<(String, InternalCacheState<T>)>,
)
    requires
        forall|a: int, b: int| 0 <= a < b < s.len() ==> #[trigger] s[a].0@ != #[trigger] s[b].0@,
        forall|i: int| 0 <= i < s.len() ==> #[trigger] s[i].0@ != key,
        u.len() == s.len() + 1,
        forall|i: int| 0 <= i < s.len() ==> #[trigger] u[i] == s[i],
        u[s.len() as int].0@ == key,
        u[s.len() as int].1 == state,
    ensures
        seq_lookup(u, key) == state,
        forall|k: Seq<char>| k != key ==> seq_lookup(u, k) == seq_lookup(s, k),
        forall|a: int, b: int| 0 <= a < b < u.len() ==> #[trigger] u[a].0@ != #[trigger] u[b].0@,
    decreases s.len(),
{
    if s.len() == 0 {
        assert(u[0].0@ == key);
        assert forall|k: Seq<char>| k != key implies seq_lookup(u, k) == seq_lookup(s, k) by {
            assert(u.drop_first().len() == 0);
            assert(seq_lookup(u, k) == seq_lookup(u.drop_first(), k));
            assert(seq_lookup(u.drop_first(), k) is Empty);
            assert(seq_lookup(s, k) is Empty);
        }
    } else {
        assert(u[0] == s[0]);
        assert forall|i: int|
            0 <= i < s.drop_first().len() implies #[trigger] u.drop_first()[i] == s.drop_first()[i] by {
            assert(u.drop_first()[i] == u[i + 1]);
            assert(s.drop_first()[i] == s[i + 1]);
        }
        assert forall|i: int|
            0 <= i < s.drop_first().len() implies #[trigger] s.drop_first()[i].0@ != key by {
            assert(s.drop_first()[i] == s[i + 1]);
        }
        assert(u.drop_first()[s.len() - 1] == u[s.len() as int]);
        lemma_seq_lookup_push(s.drop_first(), key, state, u.drop_first());
        assert forall|k: Seq<char>| k != key implies seq_lookup(u, k) == seq_lookup(s, k) by {
            if s[0].0@ != k {
                assert(seq_lookup(u, k) == seq_lookup(u.drop_first(), k));
                assert(seq_lookup(s, k) == seq_lookup(s.drop_first(), k));
            }
        }
        assert(seq_lookup(u, key) == state);
    }
}

// ---- the fetch chain ----
/// The address of fetch attempt `attempt` for `key`: the key as given, then
/// with an `https://` scheme, then with `https://www.`.
pub fn fallback_url(key: &str, attempt: usize) -> (r: Option<String>)
    ensures
        attempt == 0 ==> (r matches Some(u) && u@ == key@),
        attempt == 1 ==> (r matches Some(u) && u@ == "https://"@ + key@),
        attempt == 2 ==> (r matches Some(u) && u@ == "https://www."@ + key@),
        attempt >= 3 ==> r is None,
{
    if attempt == 0 {
        Some(String::from_str(key))
    } else if attempt == 1 {
        let mut s = String::from_str("https://");
        s.append(key);
        Some(s)
    } else if attempt == 2 {
        let mut s = String::from_str("https://www.");
        s.append(key);
        Some(s)
    } else {
        None
    }
}

/// The first fetch attempt that produced bytes, in attempt order.
pub open spec fn spec_chain(
    r0: Option<Vec<u8>>,
    r1: Option<Vec<u8>>,
    r2: Option<Vec<u8>>,
) -> Option<Vec<u8>> {
    if r0 is Some {
        r0
    } else if r1 is Some {
        r1
    } else {
        r2
    }
}

/// Pick the first success of the three fetch attempts.
pub fn chain_result(r0: Option<Vec<u8>>, r1: Option<Vec<u8>>, r2: Option<Vec<u8>>) -> (r: Option<
    Vec<u8>,
>)
    ensures
        r == spec_chain(r0, r1, r2),
{
    if r0.is_some() {
        r0
    } else if r1.is_some() {
        r1
    } else {
        r2
    }
}


// ---- the cache as a map ----
/// What one entry holds, mathematically.
pub enum EntryV {
    Stored(Seq<u8>),
    Calling,
    Empty,
}

pub open spec fn entry_view(e: InternalCacheState<Vec<u8>>) -> EntryV {
    match e {
        InternalCacheState::Stored(v) => EntryV::Stored(v@),
        InternalCacheState::Calling => EntryV::Calling,
        InternalCacheState::Empty => EntryV::Empty,
    }
}

/// The whole cache as a total map from keys to entry states.
pub open spec fn cview(c: ByteCacher) -> Map<Seq<char>, EntryV> {
    Map::new(|k: Seq<char>| true, |k: Seq<char>| entry_view(c.lookup(k)))
}

/// A transition that touches one key inserts into the map view.
pub proof fn lemma_cview_insert(oldc: ByteCacher, newc: ByteCacher, key: Seq<char>, e: EntryV)
    requires
        entry_view(newc.lookup(key)) == e,
        forall|k: Seq<char>| k != key ==> newc.lookup(k) == oldc.lookup(k),
    ensures
        cview(newc) == cview(oldc).insert(key, e),
{
    assert(cview(newc) =~= cview(oldc).insert(key, e));
}

// ---- laws ----
/// The per-key probe transition and its report, in the abstract.
pub open spec fn probe_next<T>(st: InternalCacheState<T>) -> InternalCacheState<T> {
    match st {
        InternalCacheState::Stored(b) => InternalCacheState::Stored(b),
        InternalCacheState::Calling => InternalCacheState::Calling,
        InternalCacheState::Empty => InternalCacheState::Calling,
    }
}

pub open spec fn probe_dispatches<T>(st: InternalCacheState<T>) -> bool {
    st is Empty
}

/// How many of `n` successive probes of one unresolved key dispatch a
/// fetch.
pub open spec fn dispatch_count<T>(st: InternalCacheState<T>, n: nat) -> nat
    decreases n,
{
    if n == 0 {
        0
    } else {
        (if probe_dispatches(st) {
            1nat
        } else {
            0nat
        }) + dispatch_count(probe_next(st), (n - 1) as nat)
    }
}

/// However many times an unresolved key is probed before its fetch
/// resolves, exactly one fetch is dispatched, and every later probe leaves
/// the cache unchanged.
pub proof fn lemma_probe_dedup<T>(st: InternalCacheState<T>, n: nat)
    requires
        n >= 1,
    ensures
        dispatch_count(st, n) == if st is Empty {
            1nat
        } else {
            0nat
        },
        !probe_dispatches(probe_next(st)),
        probe_next(probe_next(st)) == probe_next(st),
    decreases n,
{
    assert(!(probe_next(st) is Empty));
    if n > 1 {
        lemma_probe_dedup(probe_next(st), (n - 1) as nat);
    } else {
        assert(dispatch_count(probe_next(st), 0) == 0);
    }
}

/// The fallback chain recovers a key that fails as given but resolves with
/// an `https://` scheme: the chain yields exactly the scheme-qualified
/// attempt's bytes, and once they are stored a probe of the key hands those
/// bytes back.
pub proof fn lemma_fallback_chain(b: Vec<u8>, r2: Option<Vec<u8>>)
    ensures
        spec_chain(None, Some(b), r2) == Some(b),
        probe_next(InternalCacheState::Stored(b)) == InternalCacheState::Stored(b),
        !probe_dispatches(InternalCacheState::<Vec<u8>>::Stored(b)),
{
}

} // verus!
