//! The key-value store's state: value entries with optional expiry instants,
//! an expiration index for the sweeper, the pub/sub registry, and the
//! shutdown flag.
//!
//! One `State` is shared per listener and guarded by a single lock owned by
//! the embedding application; every operation here works on the whole
//! aggregate, so all mutations and reads are linearized by that lock.  Time
//! enters as an argument (milliseconds on one monotonic clock), so the rules
//! for expiry and sweeper wakeups are verified for every clock reading.
use tokio::sync::broadcast;
use vstd::prelude::*;

verus! {

#[verifier::external_type_specification]
#[verifier::external_body]
#[verifier::reject_recursive_types(T)]
pub struct ExSender<T>(broadcast::Sender<T>);

#[verifier::external_type_specification]
#[verifier::external_body]
#[verifier::reject_recursive_types(T)]
pub struct ExReceiver<T>(broadcast::Receiver<T>);

#[verifier::external_type_specification]
#[verifier::external_body]
#[verifier::reject_recursive_types(T)]
pub struct ExSendError<T>(broadcast::error::SendError<T>);

/// Relies on tokio::sync::broadcast::channel: creates a fan-out channel
/// whose receivers each buffer up to `capacity` messages.  It panics only
/// when the capacity is zero or absurdly large, both excluded here.
#[verifier::external_body]
fn new_channel(capacity: usize) -> (r: (broadcast::Sender<Vec<u8>>, broadcast::Receiver<Vec<u8>>))
    requires
        1 <= capacity <= 0x4000_0000,
{
    broadcast::channel(capacity)
}

/// Relies on broadcast::Sender::subscribe: a new receiver on this channel
/// that sees only messages sent after this call.
#[verifier::external_body]
fn sender_subscribe(tx: &broadcast::Sender<Vec<u8>>) -> (rx: broadcast::Receiver<Vec<u8>>) {
    tx.subscribe()
}

/// Relies on broadcast::Sender::send: delivers to the receivers active at
/// the time of the call without blocking; `Ok` carries their count, which
/// is then at least one, and `Err` returns the message when there are none.
#[verifier::external_body]
fn sender_send(tx: &broadcast::Sender<Vec<u8>>, value: Vec<u8>) -> (r: Result<
    usize,
    broadcast::error::SendError<Vec<u8>>,
>)
    ensures
        r matches Ok(n) ==> n >= 1,
{
    tx.send(value)
}

/// A stored value and the absolute instant (milliseconds) at which it
/// expires, if any.
pub struct Entry {
    pub data: Vec<u8>,
    pub expires_at: Option<u64>,
}

/// The mathematical shape of an entry.
pub ghost struct EntryV {
    pub data: Seq<u8>,
    pub expires_at: Option<u64>,
}

pub open spec fn entry_view(e: Entry) -> EntryV {
    EntryV { data: e.data@, expires_at: e.expires_at }
}

/// The mapping a key-entry association list denotes (later pairs win;
/// under unique keys the order is irrelevant).
pub open spec fn kv_map(s: Seq<(String, Entry)>) -> Map<Seq<char>, EntryV>
    decreases s.len(),
{
    if s.len() == 0 {
        Map::empty()
    } else {
        kv_map(s.drop_last()).insert(s.last().0@, entry_view(s.last().1))
    }
}

/// The channel names a pub/sub association list holds.
pub open spec fn chan_set(s: Seq<(String, broadcast::Sender<Vec<u8>>)>) -> Set<Seq<char>>
    decreases s.len(),
{
    if s.len() == 0 {
        Set::empty()
    } else {
        chan_set(s.drop_last()).insert(s.last().0@)
    }
}

pub open spec fn kv_keys_unique(s: Seq<(String, Entry)>) -> bool {
    forall|i: int, j: int| 0 <= i < j < s.len() ==> (#[trigger] s[i]).0@ != (#[trigger] s[j]).0@
}

pub open spec fn chan_keys_unique(s: Seq<(String, broadcast::Sender<Vec<u8>>)>) -> bool {
    forall|i: int, j: int| 0 <= i < j < s.len() ==> (#[trigger] s[i]).0@ != (#[trigger] s[j]).0@
}

proof fn lemma_kv_map_contains(s: Seq<(String, Entry)>, k: Seq<char>)
    ensures
        kv_map(s).contains_key(k) <==> exists|i: int| 0 <= i < s.len() && (#[trigger] s[i]).0@
            == k,
    decreases s.len(),
{
    if s.len() > 0 {
        lemma_kv_map_contains(s.drop_last(), k);
        if s.last().0@ == k {
            assert(s[s.len() - 1].0@ == k);
        } else if kv_map(s).contains_key(k) {
            let i = choose|i: int|
                0 <= i < s.drop_last().len() && (#[trigger] s.drop_last()[i]).0@ == k;
            assert(s[i].0@ == k);
        } else {
            assert forall|i: int| 0 <= i < s.len() implies (#[trigger] s[i]).0@ != k by {
                if i < s.len() - 1 {
                    assert(s.drop_last()[i] == s[i]);
                }
            }
        }
    }
}

proof fn lemma_kv_map_at(s: Seq<(String, Entry)>, i: int)
    requires
        kv_keys_unique(s),
        0 <= i < s.len(),
    ensures
        kv_map(s).contains_key(s[i].0@),
        kv_map(s)[s[i].0@] == entry_view(s[i].1),
    decreases s.len(),
{
    if i == s.len() - 1 {
    } else {
        assert(kv_keys_unique(s.drop_last())) by {
            assert(forall|a: int, b: int|
                0 <= a < b < s.len() - 1 ==> (#[trigger] s.drop_last()[a]) == s[a]
                    && (#[trigger] s.drop_last()[b]) == s[b]);
        }
        assert(s.drop_last()[i] == s[i]);
        lemma_kv_map_at(s.drop_last(), i);
        assert(s[i].0@ != s.last().0@);
    }
}

proof fn lemma_chan_set_contains(s: Seq<(String, broadcast::Sender<Vec<u8>>)>, k: Seq<char>)
    ensures
        chan_set(s).contains(k) <==> exists|i: int| 0 <= i < s.len() && (#[trigger] s[i]).0@
            == k,
    decreases s.len(),
{
    if s.len() > 0 {
        lemma_chan_set_contains(s.drop_last(), k);
        if s.last().0@ == k {
            assert(s[s.len() - 1].0@ == k);
        } else if chan_set(s).contains(k) {
            let i = choose|i: int|
                0 <= i < s.drop_last().len() && (#[trigger] s.drop_last()[i]).0@ == k;
            assert(s[i].0@ == k);
        } else {
            assert forall|i: int| 0 <= i < s.len() implies (#[trigger] s[i]).0@ != k by {
                if i < s.len() - 1 {
                    assert(s.drop_last()[i] == s[i]);
                }
            }
        }
    }
}

/// Agreement between the entries and the expiration index: the index is
/// sorted by instant, names each key at most once, and holds exactly the
/// (instant, key) pairs of the entries that carry an expiry.
pub open spec fn exp_inv(es: Seq<(String, Entry)>, xs: Seq<(u64, String)>) -> bool {
    &&& forall|i: int, j: int|
        0 <= i <= j < xs.len() ==> (#[trigger] xs[i]).0 <= (#[trigger] xs[j]).0
    &&& forall|i: int, j: int| 0 <= i < j < xs.len() ==> (#[trigger] xs[i]).1@ != (
    #[trigger] xs[j]).1@
    &&& forall|i: int|
        0 <= i < xs.len() ==> kv_map(es).contains_key((#[trigger] xs[i]).1@) && kv_map(es)[
            xs[i].1@].expires_at == Some(xs[i].0)
    &&& forall|i: int|
        0 <= i < es.len() && (#[trigger] es[i]).1.expires_at is Some ==> exists|j: int|
            0 <= j < xs.len() && (#[trigger] xs[j]).1@ == es[i].0@ && xs[j].0 == es[
                i].1.expires_at->0
}

/// The store's whole aggregate state: guarded as a unit by the caller, so
/// no operation ever observes a torn intermediate state.
pub struct State {
    entries: Vec<(String, Entry)>,
    pub_sub: Vec<(String, broadcast::Sender<Vec<u8>>)>,
    expirations: Vec<(u64, String)>,
    shutdown: bool,
}

impl State {
    /// The key-to-entry mapping this state denotes.
    pub closed spec fn entries_map(&self) -> Map<Seq<char>, EntryV> {
        kv_map(self.entries@)
    }

    /// The channel names with a fan-out sender, created lazily and never
    /// removed.
    pub closed spec fn channels(&self) -> Set<Seq<char>> {
        chan_set(self.pub_sub@)
    }

    /// Whether shutdown has been requested.
    pub closed spec fn shutdown_flag(&self) -> bool {
        self.shutdown
    }

    /// The soonest expiry instant known to the expiration index.
    pub closed spec fn next_deadline(&self) -> Option<u64> {
        if self.expirations@.len() == 0 {
            None
        } else {
            Some(self.expirations@[0].0)
        }
    }

    /// Internal consistency: unique keys, and an expiration index sorted
    /// by instant whose pairs agree exactly with the entries that carry an
    /// expiry.
    pub closed spec fn wf(&self) -> bool {
        &&& kv_keys_unique(self.entries@)
        &&& chan_keys_unique(self.pub_sub@)
        &&& exp_inv(self.entries@, self.expirations@)
    }

    /// A fresh, empty store state.
    pub fn new() -> (s: State)
        ensures
            s.wf(),
            s.entries_map() == Map::<Seq<char>, EntryV>::empty(),
            s.channels() == Set::<Seq<char>>::empty(),
            !s.shutdown_flag(),
            s.next_deadline() is None,
    {
        State {
            entries: Vec::new(),
            pub_sub: Vec::new(),
            expirations: Vec::new(),
            shutdown: false,
        }
    }

    /// Whether shutdown has been requested.
    pub fn is_shutdown(&self) -> (r: bool)
        ensures
            r == self.shutdown_flag(),
    {
        self.shutdown
    }

    /// Requests shutdown; everything else is untouched.
    pub fn set_shutdown(&mut self)
        requires
            old(self).wf(),
        ensures
            final(self).wf(),
            final(self).shutdown_flag(),
            final(self).entries_map() == old(self).entries_map(),
            final(self).channels() == old(self).channels(),
            final(self).next_deadline() == old(self).next_deadline(),
    {
        self.shutdown = true;
    }

    /// The soonest expiry instant, if any key has one.
    pub fn next_expiration(&self) -> (r: Option<u64>)
        ensures
            r == self.next_deadline(),
    {
        if self.expirations.len() == 0 {
            None
        } else {
            Some(self.expirations[0].0)
        }
    }

    /// The value stored under `key`.  No eager expiry check happens here: a
    /// logically expired key is visible until the sweeper removes it.
    pub fn get(&self, key: &String) -> (r: Option<Vec<u8>>)
        requires
            self.wf(),
        ensures
            match r {
                Some(v) => self.entries_map().contains_key(key@) && v@ == self.entries_map()[
                    key@].data,
                None => !self.entries_map().contains_key(key@),
            },
    {
        let n = self.entries.len();
        let mut i: usize = 0;
        while i < n
            invariant
                0 <= i <= n == self.entries@.len(),
                self.wf(),
                forall|j: int| 0 <= j < i ==> (#[trigger] self.entries@[j]).0@ != key@,
            decreases n - i,
        {
            if self.entries[i].0 == *key {
                proof {
                    lemma_kv_map_at(self.entries@, i as int);
                }
                return Some(self.entries[i].1.data.clone());
            }
            i = i + 1;
        }
        proof {
            lemma_kv_map_contains(self.entries@, key@);
        }
        None
    }
}

proof fn lemma_kv_map_push(s: Seq<(String, Entry)>, pair: (String, Entry))
    ensures
        kv_map(s.push(pair)) == kv_map(s).insert(pair.0@, entry_view(pair.1)),
{
    assert(s.push(pair).drop_last() =~= s);
    assert(s.push(pair).last() == pair);
}

proof fn lemma_kv_map_remove(s: Seq<(String, Entry)>, i: int)
    requires
        kv_keys_unique(s),
        0 <= i < s.len(),
    ensures
        kv_map(s.remove(i)) == kv_map(s).remove(s[i].0@),
        kv_keys_unique(s.remove(i)),
    decreases s.len(),
{
    let t = s.remove(i);
    assert(kv_keys_unique(t)) by {
        assert forall|a: int, b: int| 0 <= a < b < t.len() implies (#[trigger] t[a]).0@ != (
        #[trigger] t[b]).0@ by {
            let a2: int = if a < i { a } else { a + 1 };
            let b2: int = if b < i { b } else { b + 1 };
            assert(t[a] == s[a2] && t[b] == s[b2]);
        }
    }
    if i == s.len() - 1 {
        assert(t =~= s.drop_last());
        lemma_kv_map_contains(s.drop_last(), s[i].0@);
        assert forall|j: int| 0 <= j < s.drop_last().len() implies (
        #[trigger] s.drop_last()[j]).0@ != s[i].0@ by {
            assert(s.drop_last()[j] == s[j]);
        }
        assert(!kv_map(s.drop_last()).contains_key(s[i].0@));
        assert(kv_map(t) =~= kv_map(s).remove(s[i].0@));
    } else {
        assert(kv_keys_unique(s.drop_last())) by {
            assert(forall|a: int, b: int|
                0 <= a < b < s.len() - 1 ==> (#[trigger] s.drop_last()[a]) == s[a]
                    && (#[trigger] s.drop_last()[b]) == s[b]);
        }
        assert(s.drop_last()[i] == s[i]);
        lemma_kv_map_remove(s.drop_last(), i);
        assert(t.drop_last() =~= s.drop_last().remove(i));
        assert(t.last() == s.last());
        assert(kv_map(t) == kv_map(s.drop_last().remove(i)).insert(
            s.last().0@,
            entry_view(s.last().1),
        ));
        assert(s[i].0@ != s.last().0@);
        assert(kv_map(t) =~= kv_map(s).remove(s[i].0@));
    }
}

/// A seconds-plus-offset instant, saturating at the largest expressible
/// one.
pub open spec fn sat_add(a: u64, b: u64) -> u64 {
    if a + b > u64::MAX {
        u64::MAX
    } else {
        (a + b) as u64
    }
}

fn sat_add_ms(a: u64, b: u64) -> (r: u64)
    ensures
        r == sat_add(a, b),
{
    if a > u64::MAX - b {
        u64::MAX
    } else {
        a + b
    }
}

/// The absolute expiry instant a `SET` computes: now plus the time to
/// live, when one was given.
pub open spec fn spec_expiry(expire: Option<u64>, now: u64) -> Option<u64> {
    match expire {
        Some(d) => Some(sat_add(now, d)),
        None => None,
    }
}

proof fn lemma_exp_inv_remove_pair(es: Seq<(String, Entry)>, xs: Seq<(u64, String)>, i: int, j: int)
    requires
        kv_keys_unique(es),
        exp_inv(es, xs),
        0 <= i < es.len(),
        0 <= j < xs.len(),
        xs[j].1@ == es[i].0@,
    ensures
        exp_inv(es.remove(i), xs.remove(j)),
        forall|t: int| 0 <= t < xs.remove(j).len() ==> (#[trigger] xs.remove(j)[t]).1@ != es[
            i].0@,
{
    let es2 = es.remove(i);
    let xs2 = xs.remove(j);
    let k = es[i].0@;
    lemma_kv_map_remove(es, i);
    assert(forall|t: int|
        0 <= t < xs2.len() ==> #[trigger] xs2[t] == (if t < j {
            xs[t]
        } else {
            xs[t + 1]
        }));
    assert(forall|t: int|
        0 <= t < es2.len() ==> #[trigger] es2[t] == (if t < i {
            es[t]
        } else {
            es[t + 1]
        }));
    assert forall|t: int| 0 <= t < xs2.len() implies (#[trigger] xs2[t]).1@ != k by {
        let t2: int = if t < j { t } else { t + 1 };
        assert(xs2[t] == xs[t2]);
    }
    assert forall|t: int|
        0 <= t < xs2.len() implies kv_map(es2).contains_key((#[trigger] xs2[t]).1@) && kv_map(
        es2,
    )[xs2[t].1@].expires_at == Some(xs2[t].0) by {
        let t2: int = if t < j { t } else { t + 1 };
        assert(xs2[t] == xs[t2]);
    }
    assert forall|t: int|
        0 <= t < es2.len() && (#[trigger] es2[t]).1.expires_at is Some implies exists|u: int|
        0 <= u < xs2.len() && (#[trigger] xs2[u]).1@ == es2[t].0@ && xs2[u].0 == es2[
        t].1.expires_at->0 by {
        let t2: int = if t < i { t } else { t + 1 };
        assert(es2[t] == es[t2]);
        let jx = choose|jx: int|
            0 <= jx < xs.len() && (#[trigger] xs[jx]).1@ == es[t2].0@ && xs[jx].0 == es[
                t2].1.expires_at->0;
        assert(es[t2].0@ != k);
        let u: int = if jx < j { jx } else { jx - 1 };
        assert(xs2[u] == xs[jx]);
    }
}

proof fn lemma_exp_inv_remove_entry(es: Seq<(String, Entry)>, xs: Seq<(u64, String)>, i: int)
    requires
        kv_keys_unique(es),
        exp_inv(es, xs),
        0 <= i < es.len(),
        es[i].1.expires_at is None,
    ensures
        exp_inv(es.remove(i), xs),
        forall|t: int| 0 <= t < xs.len() ==> (#[trigger] xs[t]).1@ != es[i].0@,
{
    let es2 = es.remove(i);
    let k = es[i].0@;
    lemma_kv_map_remove(es, i);
    lemma_kv_map_at(es, i);
    assert(forall|t: int|
        0 <= t < es2.len() ==> #[trigger] es2[t] == (if t < i {
            es[t]
        } else {
            es[t + 1]
        }));
    assert forall|t: int| 0 <= t < xs.len() implies (#[trigger] xs[t]).1@ != k by {
        if xs[t].1@ == k {
            assert(kv_map(es)[k].expires_at == Some(xs[t].0));
        }
    }
    assert forall|t: int|
        0 <= t < es2.len() && (#[trigger] es2[t]).1.expires_at is Some implies exists|u: int|
        0 <= u < xs.len() && (#[trigger] xs[u]).1@ == es2[t].0@ && xs[u].0 == es2[
        t].1.expires_at->0 by {
        let t2: int = if t < i { t } else { t + 1 };
        assert(es2[t] == es[t2]);
    }
}

proof fn lemma_exp_inv_push(es: Seq<(String, Entry)>, xs: Seq<(u64, String)>, pair: (
    String,
    Entry,
))
    requires
        exp_inv(es, xs),
        pair.1.expires_at is None,
        forall|t: int| 0 <= t < xs.len() ==> (#[trigger] xs[t]).1@ != pair.0@,
    ensures
        exp_inv(es.push(pair), xs),
{
    let es2 = es.push(pair);
    lemma_kv_map_push(es, pair);
    assert(forall|t: int| 0 <= t < es.len() ==> #[trigger] es2[t] == es[t]);
    assert forall|t: int|
        0 <= t < es2.len() && (#[trigger] es2[t]).1.expires_at is Some implies exists|u: int|
        0 <= u < xs.len() && (#[trigger] xs[u]).1@ == es2[t].0@ && xs[u].0 == es2[
        t].1.expires_at->0 by {
        assert(t < es.len());
        assert(es2[t] == es[t]);
    }
}

proof fn lemma_exp_inv_push_insert(
    es: Seq<(String, Entry)>,
    xs: Seq<(u64, String)>,
    pair: (String, Entry),
    npair: (u64, String),
    j: int,
)
    requires
        exp_inv(es, xs),
        pair.1.expires_at == Some(npair.0),
        npair.1@ == pair.0@,
        forall|t: int| 0 <= t < xs.len() ==> (#[trigger] xs[t]).1@ != pair.0@,
        0 <= j <= xs.len(),
        forall|t: int| 0 <= t < j ==> (#[trigger] xs[t]).0 <= npair.0,
        forall|t: int| j <= t < xs.len() ==> (#[trigger] xs[t]).0 > npair.0,
    ensures
        exp_inv(es.push(pair), xs.insert(j, npair)),
{
    let es2 = es.push(pair);
    let xs2 = xs.insert(j, npair);
    let k = pair.0@;
    lemma_kv_map_push(es, pair);
    assert(forall|t: int| 0 <= t < es.len() ==> #[trigger] es2[t] == es[t]);
    assert(xs2[j] == npair);
    assert(forall|t: int| 0 <= t < j ==> #[trigger] xs2[t] == xs[t]);
    assert(forall|t: int| j < t < xs2.len() ==> #[trigger] xs2[t] == xs[t - 1]);
    assert forall|a: int, b: int| 0 <= a <= b < xs2.len() implies (#[trigger] xs2[a]).0 <= (
    #[trigger] xs2[b]).0 by {
        if a < j && b > j {
            assert(xs2[a] == xs[a] && xs2[b] == xs[b - 1]);
        }
    }
    assert forall|a: int, b: int| 0 <= a < b < xs2.len() implies (#[trigger] xs2[a]).1@ != (
    #[trigger] xs2[b]).1@ by {
        if a != j && b != j {
            let a2: int = if a < j { a } else { a - 1 };
            let b2: int = if b < j { b } else { b - 1 };
            assert(xs2[a] == xs[a2] && xs2[b] == xs[b2]);
        }
    }
    assert forall|t: int|
        0 <= t < xs2.len() implies kv_map(es2).contains_key((#[trigger] xs2[t]).1@) && kv_map(
        es2,
    )[xs2[t].1@].expires_at == Some(xs2[t].0) by {
        if t != j {
            let t2: int = if t < j { t } else { t - 1 };
            assert(xs2[t] == xs[t2]);
        }
    }
    assert forall|t: int|
        0 <= t < es2.len() && (#[trigger] es2[t]).1.expires_at is Some implies exists|u: int|
        0 <= u < xs2.len() && (#[trigger] xs2[u]).1@ == es2[t].0@ && xs2[u].0 == es2[
        t].1.expires_at->0 by {
        if t < es.len() {
            assert(es2[t] == es[t]);
            let jx = choose|jx: int|
                0 <= jx < xs.len() && (#[trigger] xs[jx]).1@ == es[t].0@ && xs[jx].0 == es[
                    t].1.expires_at->0;
            let u: int = if jx < j { jx } else { jx + 1 };
            assert(xs2[u] == xs[jx]);
        } else {
            assert(xs2[j] == npair);
        }
    }
}

impl State {
    /// Stores `value` under `key`, replacing any prior entry and its
    /// expiration-index pair.  With a time to live, the entry expires at
    /// `now + ttl` (saturating) and that instant joins the index.  The
    /// result says whether the sweeper must be woken: only when the new
    /// instant is strictly sooner than every previously known one.
    #[verifier::loop_isolation(false)]
    #[verifier::rlimit(50)]
    pub fn set(&mut self, key: String, value: Vec<u8>, expire: Option<u64>, now: u64) -> (notify:
        bool)
        requires
            old(self).wf(),
        ensures
            final(self).wf(),
            final(self).entries_map() == old(self).entries_map().insert(
                key@,
                EntryV { data: value@, expires_at: spec_expiry(expire, now) },
            ),
            final(self).channels() == old(self).channels(),
            final(self).shutdown_flag() == old(self).shutdown_flag(),
            notify == (match spec_expiry(expire, now) {
                Some(when) => match old(self).next_deadline() {
                    Some(d) => d > when,
                    None => true,
                },
                None => false,
            }),
    {
        let expires_at: Option<u64> = match expire {
            Some(d) => Some(sat_add_ms(now, d)),
            None => None,
        };
        let notify = match expires_at {
            Some(when) => match self.next_expiration() {
                Some(d) => d > when,
                None => true,
            },
            None => false,
        };
        let ghost e0 = self.entries@;
        let ghost x0 = self.expirations@;
        let ghost map0 = kv_map(e0);

        // take out any existing pair for this key, with its index entry
        let n = self.entries.len();
        let mut i: usize = 0;
        while i < n && !(self.entries[i].0 == key)
            invariant
                0 <= i <= n,
                forall|jj: int| 0 <= jj < i ==> (#[trigger] e0[jj]).0@ != key@,
            decreases n - i,
        {
            i = i + 1;
        }
        if i < n {
            let old_exp = self.entries[i].1.expires_at;
            if old_exp.is_some() {
                let w = match old_exp {
                    Some(w) => w,
                    None => 0,
                };
                let m = self.expirations.len();
                let mut j: usize = 0;
                while j < m && !(self.expirations[j].0 == w && self.expirations[j].1 == key)
                    invariant
                        0 <= j <= m,
                        forall|jj: int|
                            0 <= jj < j ==> !((#[trigger] x0[jj]).0 == w && x0[jj].1@ == key@),
                    decreases m - j,
                {
                    j = j + 1;
                }
                if j < m {
                    proof {
                        lemma_exp_inv_remove_pair(e0, x0, i as int, j as int);
                        lemma_kv_map_remove(e0, i as int);
                    }
                    self.entries.remove(i);
                    self.expirations.remove(j);
                } else {
                    proof {
                        lemma_kv_map_at(e0, i as int);
                        let jx = choose|jx: int|
                            0 <= jx < x0.len() && (#[trigger] x0[jx]).1@ == e0[i as int].0@
                                && x0[jx].0 == e0[i as int].1.expires_at->0;
                        assert(false);
                    }
                }
            } else {
                proof {
                    lemma_exp_inv_remove_entry(e0, x0, i as int);
                    lemma_kv_map_remove(e0, i as int);
                }
                self.entries.remove(i);
            }
        } else {
            proof {
                lemma_kv_map_contains(e0, key@);
                assert(!map0.contains_key(key@));
                assert forall|jj: int| 0 <= jj < x0.len() implies (#[trigger] x0[jj]).1@
                    != key@ by {}
            }
        }
        let ghost e1 = self.entries@;
        let ghost x1 = self.expirations@;
        proof {
            assert(exp_inv(e1, x1));
            assert(kv_keys_unique(e1));
            assert(kv_map(e1) == map0.remove(key@) || kv_map(e1) == map0);
            assert(forall|jj: int| 0 <= jj < x1.len() ==> (#[trigger] x1[jj]).1@ != key@);
            assert(forall|jj: int| 0 <= jj < e1.len() ==> (#[trigger] e1[jj]).0@ != key@) by {
                lemma_kv_map_contains(e1, key@);
                if kv_map(e1).contains_key(key@) {
                    lemma_kv_map_contains(e0, key@);
                }
            }
        }
        match expires_at {
            Some(when) => {
                let key2 = key.clone();
                let ghost pk = (key, Entry { data: value, expires_at });
                let m = self.expirations.len();
                let mut j: usize = 0;
                while j < m && self.expirations[j].0 <= when
                    invariant
                        0 <= j <= m,
                        forall|jj: int| 0 <= jj < j ==> (#[trigger] x1[jj]).0 <= when,
                    decreases m - j,
                {
                    j = j + 1;
                }
                proof {
                    assert forall|t: int| j <= t < x1.len() implies (#[trigger] x1[t]).0
                        > when by {
                        assert(x1[j as int].0 <= x1[t].0);
                    }
                    lemma_exp_inv_push_insert(e1, x1, pk, (when, key2), j as int);
                    lemma_kv_map_push(e1, pk);
                }
                self.entries.push((key, Entry { data: value, expires_at }));
                self.expirations.insert(j, (when, key2));
                proof {
                    assert(kv_keys_unique(self.entries@)) by {
                        assert(forall|t: int|
                            0 <= t < e1.len() ==> #[trigger] self.entries@[t] == e1[t]);
                    }
                    assert(self.entries_map() =~= old(self).entries_map().insert(
                        key@,
                        EntryV { data: value@, expires_at: spec_expiry(expire, now) },
                    ));
                }
            },
            None => {
                let ghost pk = (key, Entry { data: value, expires_at });
                proof {
                    lemma_exp_inv_push(e1, x1, pk);
                    lemma_kv_map_push(e1, pk);
                }
                self.entries.push((key, Entry { data: value, expires_at }));
                proof {
                    assert(kv_keys_unique(self.entries@)) by {
                        assert(forall|t: int|
                            0 <= t < e1.len() ==> #[trigger] self.entries@[t] == e1[t]);
                    }
                    assert(self.entries_map() =~= old(self).entries_map().insert(
                        key@,
                        EntryV { data: value@, expires_at: spec_expiry(expire, now) },
                    ));
                }
            },
        }
        notify
    }
}

/// Whether an entry's expiry has arrived.
pub open spec fn due(e: EntryV, now: u64) -> bool {
    e.expires_at matches Some(w) && w <= now
}

/// A mapping with every due entry removed.
pub open spec fn purge_map(m: Map<Seq<char>, EntryV>, now: u64) -> Map<Seq<char>, EntryV> {
    Map::new(|k: Seq<char>| m.contains_key(k) && !due(m[k], now), |k: Seq<char>| m[k])
}

impl State {
    /// Removes every entry whose expiry instant has arrived, unless
    /// shutdown was requested.  Returns the instant the sweeper should
    /// sleep until: the soonest remaining expiry (always in the future),
    /// or nothing when no expiry is pending or shutdown was requested.
    #[verifier::loop_isolation(false)]
    #[verifier::rlimit(50)]
    pub fn purge_expired_keys(&mut self, now: u64) -> (r: Option<u64>)
        requires
            old(self).wf(),
        ensures
            final(self).wf(),
            final(self).channels() == old(self).channels(),
            final(self).shutdown_flag() == old(self).shutdown_flag(),
            old(self).shutdown_flag() ==> final(self).entries_map() == old(self).entries_map()
                && final(self).next_deadline() == old(self).next_deadline() && r is None,
            !old(self).shutdown_flag() ==> {
                &&& final(self).entries_map() == purge_map(old(self).entries_map(), now)
                &&& r == final(self).next_deadline()
                &&& (r matches Some(d) ==> d > now)
            },
    {
        if self.is_shutdown() {
            return None;
        }
        let ghost map0 = self.entries_map();
        while self.expirations.len() > 0 && self.expirations[0].0 <= now
            invariant
                self.wf(),
                self.channels() == old(self).channels(),
                self.shutdown_flag() == old(self).shutdown_flag(),
                forall|k: Seq<char>|
                    #[trigger] self.entries_map().contains_key(k) ==> map0.contains_key(k)
                        && self.entries_map()[k] == map0[k],
                forall|k: Seq<char>|
                    #[trigger] map0.contains_key(k) && !due(map0[k], now)
                        ==> self.entries_map().contains_key(k) && self.entries_map()[k]
                        == map0[k],
            decreases self.expirations@.len(),
        {
            let key = self.expirations[0].1.clone();
            let ghost e = self.entries@;
            let ghost x = self.expirations@;
            proof {
                assert(self.entries_map() == kv_map(e));
            }
            let n = self.entries.len();
            let mut i: usize = 0;
            while i < n && !(self.entries[i].0 == key)
                invariant
                    0 <= i <= n,
                    forall|jj: int| 0 <= jj < i ==> (#[trigger] e[jj]).0@ != key@,
                decreases n - i,
            {
                i = i + 1;
            }
            if i < n {
                proof {
                    lemma_exp_inv_remove_pair(e, x, i as int, 0);
                    lemma_kv_map_remove(e, i as int);
                    lemma_kv_map_at(e, i as int);
                    assert(kv_map(e)[key@].expires_at == Some(x[0].0));
                    assert(due(kv_map(e)[key@], now));
                }
                self.entries.remove(i);
                self.expirations.remove(0);
                proof {
                    assert(self.entries_map() == kv_map(e).remove(key@));
                    assert forall|k: Seq<char>|
                        #[trigger] self.entries_map().contains_key(k) implies map0.contains_key(
                        k,
                    ) && self.entries_map()[k] == map0[k] by {
                        assert(kv_map(e).contains_key(k));
                        assert(self.entries_map()[k] == kv_map(e)[k]);
                    }
                    assert forall|k: Seq<char>|
                        #[trigger] map0.contains_key(k) && !due(map0[k], now) implies self.entries_map().contains_key(
                        k,
                    ) && self.entries_map()[k] == map0[k] by {
                        if k == key@ {
                            assert(kv_map(e).contains_key(key@));
                            assert(map0[key@] == kv_map(e)[key@]);
                            assert(due(map0[k], now));
                        } else {
                            assert(kv_map(e).contains_key(k));
                        }
                    }
                }
            } else {
                proof {
                    lemma_kv_map_contains(e, key@);
                    let ix = choose|ix: int|
                        0 <= ix < e.len() && (#[trigger] e[ix]).0@ == key@;
                    assert(false);
                }
            }
        }
        proof {
            let m2 = self.entries_map();
            let x2 = self.expirations@;
            assert forall|k: Seq<char>| #[trigger] m2.contains_key(k) implies !due(
                m2[k],
                now,
            ) by {
                if m2[k].expires_at is Some {
                    lemma_kv_map_contains(self.entries@, k);
                    let ix = choose|ix: int|
                        0 <= ix < self.entries@.len() && (#[trigger] self.entries@[ix]).0@
                            == k;
                    lemma_kv_map_at(self.entries@, ix);
                    let jx = choose|jx: int|
                        0 <= jx < x2.len() && (#[trigger] x2[jx]).1@ == self.entries@[ix].0@
                            && x2[jx].0 == self.entries@[ix].1.expires_at->0;
                    assert(x2[0].0 <= x2[jx].0);
                }
            }
            assert(m2 =~= purge_map(map0, now));
        }
        self.next_expiration()
    }
}

impl State {
    /// A new receiver on `key`'s fan-out channel, which is created lazily
    /// (bounded to 1024 buffered messages per receiver) the first time the
    /// channel is named.  Channels are never removed.
    pub fn subscribe(&mut self, key: String) -> (rx: broadcast::Receiver<Vec<u8>>)
        requires
            old(self).wf(),
        ensures
            final(self).wf(),
            final(self).channels() == old(self).channels().insert(key@),
            final(self).entries_map() == old(self).entries_map(),
            final(self).shutdown_flag() == old(self).shutdown_flag(),
            final(self).next_deadline() == old(self).next_deadline(),
    {
        let ghost c0 = self.pub_sub@;
        let n = self.pub_sub.len();
        let mut i: usize = 0;
        while i < n && !(self.pub_sub[i].0 == key)
            invariant
                0 <= i <= n == self.pub_sub@.len(),
                self.pub_sub@ == c0,
                forall|jj: int| 0 <= jj < i ==> (#[trigger] c0[jj]).0@ != key@,
            decreases n - i,
        {
            i = i + 1;
        }
        if i < n {
            proof {
                lemma_chan_set_contains(c0, key@);
                assert(chan_set(c0).insert(key@) =~= chan_set(c0));
            }
            sender_subscribe(&self.pub_sub[i].1)
        } else {
            proof {
                lemma_chan_set_contains(c0, key@);
            }
            let (tx, rx) = new_channel(1024);
            self.pub_sub.push((key, tx));
            proof {
                assert(self.pub_sub@.drop_last() =~= c0);
                assert(chan_keys_unique(self.pub_sub@)) by {
                    assert(forall|t: int|
                        0 <= t < c0.len() ==> #[trigger] self.pub_sub@[t] == c0[t]);
                }
            }
            rx
        }
    }

    /// Delivers `value` to every current receiver on `key`'s channel,
    /// without ever blocking: a receiver with a full buffer misses this
    /// message, and only this receiver.  Returns how many receivers were
    /// handed the message: zero whenever the channel is unknown or has no
    /// receivers.
    pub fn publish(&self, key: &String, value: Vec<u8>) -> (n: usize)
        requires
            self.wf(),
        ensures
            !self.channels().contains(key@) ==> n == 0,
    {
        let ghost c0 = self.pub_sub@;
        let m = self.pub_sub.len();
        let mut i: usize = 0;
        while i < m && !(self.pub_sub[i].0 == *key)
            invariant
                0 <= i <= m == self.pub_sub@.len(),
                c0 == self.pub_sub@,
                forall|jj: int| 0 <= jj < i ==> (#[trigger] c0[jj]).0@ != key@,
            decreases m - i,
        {
            i = i + 1;
        }
        if i < m {
            proof {
                lemma_chan_set_contains(c0, key@);
            }
            match sender_send(&self.pub_sub[i].1, value) {
                Ok(n) => n,
                Err(_) => 0,
            }
        } else {
            proof {
                lemma_chan_set_contains(c0, key@);
            }
            0
        }
    }
}

} // verus!
