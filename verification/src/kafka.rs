//! The log workload: an in-memory ordered log per key, where a
//! message's offset is its index. Appends answer with the offset
//! assigned; polls return each requested key's entries from the given
//! offset on; committed offsets are accepted without persistence and
//! reported as the current log lengths, a known limitation of this
//! workload.

use vstd::prelude::*;

verus! {

/// The per-key logs, in order of first append, each key held once.
#[derive(Debug)]
pub struct KafkaHandler {
    pub logs: Vec<(Vec<u8>, Vec<u32>)>,
}

/// The mathematical shape of the logs.
pub open spec fn logs_view(s: Seq<(Vec<u8>, Vec<u32>)>) -> Seq<(Seq<u8>, Seq<u32>)> {
    s.map_values(|p: (Vec<u8>, Vec<u32>)| (p.0@, p.1@))
}

/// The keys of the logs, in order.
pub open spec fn log_keys(t: Seq<(Seq<u8>, Seq<u32>)>) -> Seq<Seq<u8>> {
    t.map_values(|p: (Seq<u8>, Seq<u32>)| p.0)
}

/// The log bound to `key`, or the empty log when the key is unknown.
pub open spec fn spec_log(t: Seq<(Seq<u8>, Seq<u32>)>, key: Seq<u8>) -> Seq<u32>
    decreases t.len(),
{
    if t.len() == 0 {
        Seq::empty()
    } else if t[0].0 == key {
        t[0].1
    } else {
        spec_log(t.drop_first(), key)
    }
}

/// `t` has a log under `key`.
pub open spec fn has_log(t: Seq<(Seq<u8>, Seq<u32>)>, key: Seq<u8>) -> bool {
    exists|i: int| 0 <= i < t.len() && t[i].0 == key
}

/// The entries of a log from `off` on, each with its offset.
pub open spec fn entries_from(log: Seq<u32>, off: int) -> Seq<(usize, u32)> {
    Seq::new(
        if off <= log.len() {
            (log.len() - off) as nat
        } else {
            0
        },
        |k: int| ((off + k) as usize, log[off + k]),
    )
}

/// The shape of a poll request's offsets.
pub open spec fn offs_view(s: Seq<(Vec<u8>, u32)>) -> Seq<(Seq<u8>, u32)> {
    s.map_values(|p: (Vec<u8>, u32)| (p.0@, p.1))
}

/// The shape of a key list.
pub open spec fn keys_view(s: Seq<Vec<u8>>) -> Seq<Seq<u8>> {
    s.map_values(|k: Vec<u8>| k@)
}

/// The shape of a poll reply.
pub open spec fn poll_out_view(s: Seq<(Vec<u8>, Vec<(usize, u32)>)>) -> Seq<
    (Seq<u8>, Seq<(usize, u32)>),
> {
    s.map_values(|p: (Vec<u8>, Vec<(usize, u32)>)| (p.0@, p.1@))
}

/// The shape of a committed-offsets reply.
pub open spec fn lco_out_view(s: Seq<(Vec<u8>, usize)>) -> Seq<(Seq<u8>, int)> {
    s.map_values(|p: (Vec<u8>, usize)| (p.0@, p.1 as int))
}

/// What a poll answers: the requested keys that have a log, in request
/// order, each with its entries from the requested offset on.
pub open spec fn spec_poll(t: Seq<(Seq<u8>, Seq<u32>)>, offs: Seq<(Seq<u8>, u32)>) -> Seq<
    (Seq<u8>, Seq<(usize, u32)>),
>
    decreases offs.len(),
{
    if offs.len() == 0 {
        Seq::empty()
    } else {
        let pre = spec_poll(t, offs.drop_last());
        let o = offs.last();
        if has_log(t, o.0) {
            pre.push((o.0, entries_from(spec_log(t, o.0), o.1 as int)))
        } else {
            pre
        }
    }
}

/// What a committed-offsets listing answers: each requested key with a
/// log, in request order, with its log's current length.
pub open spec fn spec_lco(t: Seq<(Seq<u8>, Seq<u32>)>, keys: Seq<Seq<u8>>) -> Seq<(Seq<u8>, int)>
    decreases keys.len(),
{
    if keys.len() == 0 {
        Seq::empty()
    } else {
        let pre = spec_lco(t, keys.drop_last());
        let k = keys.last();
        if has_log(t, k) {
            pre.push((k, spec_log(t, k).len() as int))
        } else {
            pre
        }
    }
}

impl KafkaHandler {
    /// The structural invariant: one log per key.
    pub open spec fn wf(&self) -> bool {
        log_keys(logs_view(self.logs@)).no_duplicates()
    }

    /// Fresh state with no logs.
    pub fn new() -> (h: KafkaHandler)
        ensures
            h.wf(),
            logs_view(h.logs@) == Seq::<(Seq<u8>, Seq<u32>)>::empty(),
    {
        let h = KafkaHandler { logs: Vec::new() };
        proof {
            assert(logs_view(h.logs@) =~= Seq::<(Seq<u8>, Seq<u32>)>::empty());
            assert(log_keys(logs_view(h.logs@)) =~= Seq::<Seq<u8>>::empty());
        }
        h
    }

    /// Appends `msg` under `key`, creating the log if the key is new;
    /// the reply carries the offset the message was assigned: the log's
    /// length before the append.
    pub fn send(&mut self, key: Vec<u8>, msg: u32) -> (offset: usize)
        requires
            old(self).wf(),
        ensures
            final(self).wf(),
            offset == spec_log(logs_view(old(self).logs@), key@).len(),
            spec_log(logs_view(final(self).logs@), key@) == spec_log(
                logs_view(old(self).logs@),
                key@,
            ).push(msg),
            forall|k2: Seq<u8>|
                k2 != key@ ==> #[trigger] spec_log(logs_view(final(self).logs@), k2) == spec_log(
                    logs_view(old(self).logs@),
                    k2,
                ),
    {
        let ghost pre = logs_view(self.logs@);
        let n = self.logs.len();
        let mut i: usize = 0;
        while i < n
            invariant
                0 <= i <= n,
                n == self.logs@.len(),
                self == old(self),
                old(self).wf(),
                pre == logs_view(self.logs@),
                forall|j: int| 0 <= j < i ==> pre[j].0 != key@,
            decreases n - i,
        {
            if eq_bytes(&self.logs[i].0, &key) {
                proof {
                    assert(pre[i as int].0 == key@);
                    lemma_log_at_first(pre, key@, i as int);
                }
                let offset = self.logs[i].1.len();
                let ghost prelogs = self.logs@;
                let m = &mut self.logs;
                vec_push_at(m, i, msg);
                proof {
                    assert(logs_view(self.logs@) =~= pre.update(
                        i as int,
                        (pre[i as int].0, pre[i as int].1.push(msg)),
                    ));
                    lemma_log_update(pre, key@, i as int, msg);
                    assert(log_keys(logs_view(self.logs@)) =~= log_keys(pre));
                }
                return offset;
            }
            i = i + 1;
        }
        proof {
            assert(!has_log(pre, key@)) by {
                if has_log(pre, key@) {
                    let w = choose|w: int| 0 <= w < pre.len() && pre[w].0 == key@;
                }
            }
            lemma_log_missing(pre, key@);
        }
        let ghost kview = key@;
        let mut log: Vec<u32> = Vec::new();
        log.push(msg);
        self.logs.push((key, log));
        proof {
            let post = logs_view(self.logs@);
            assert(post =~= pre.push((kview, seq![msg])));
            assert(spec_log(post, kview) == seq![msg]) by {
                lemma_log_at_last(pre, kview, seq![msg]);
            }
            assert(seq![msg] =~= spec_log(pre, kview).push(msg));
            assert forall|k2: Seq<u8>| k2 != kview implies #[trigger] spec_log(post, k2)
                == spec_log(pre, k2) by {
                lemma_log_push_other(pre, kview, seq![msg], k2);
            }
            assert(log_keys(post) =~= log_keys(pre).push(kview));
            assert(log_keys(post).no_duplicates()) by {
                assert forall|a: int, b: int|
                    0 <= a < log_keys(post).len() && 0 <= b < log_keys(post).len() && a
                        != b implies log_keys(post)[a] != log_keys(post)[b] by {
                    if a < pre.len() && b < pre.len() {
                        assert(log_keys(post)[a] == log_keys(pre)[a]);
                        assert(log_keys(post)[b] == log_keys(pre)[b]);
                    } else if a < pre.len() {
                        assert(log_keys(post)[b] == kview && log_keys(post)[a] == pre[a].0);
                    } else if b < pre.len() {
                        assert(log_keys(post)[a] == kview && log_keys(post)[b] == pre[b].0);
                    }
                }
            }
        }
        0
    }

    /// Answers a poll: for each requested key that has a log, in
    /// request order, its entries from the requested offset on, each
    /// with its offset.
    pub fn poll(&self, offsets: &Vec<(Vec<u8>, u32)>) -> (r: Vec<(Vec<u8>, Vec<(usize, u32)>)>)
        ensures
            poll_out_view(r@) == spec_poll(logs_view(self.logs@), offs_view(offsets@)),
    {
        let ghost t = logs_view(self.logs@);
        let ghost ov = offs_view(offsets@);
        let n = offsets.len();
        let mut out: Vec<(Vec<u8>, Vec<(usize, u32)>)> = Vec::new();
        let mut q: usize = 0;
        proof {
            assert(ov.subrange(0, 0) =~= Seq::<(Seq<u8>, u32)>::empty());
            assert(poll_out_view(out@) =~= spec_poll(t, ov.subrange(0, 0)));
        }
        while q < n
            invariant
                0 <= q <= n,
                n == offsets@.len(),
                ov == offs_view(offsets@),
                t == logs_view(self.logs@),
                poll_out_view(out@) == spec_poll(t, ov.subrange(0, q as int)),
            decreases n - q,
        {
            let key = &offsets[q].0;
            let off = offsets[q].1;
            proof {
                assert(ov.subrange(0, q as int + 1).drop_last() =~= ov.subrange(0, q as int));
                assert(ov.subrange(0, q as int + 1).last() == ov[q as int]);
                assert(ov[q as int] == (offsets@[q as int].0@, offsets@[q as int].1));
            }
            match self.find_log(key) {
                Some(li) => {
                    proof {
                        assert(t[li as int].0 == key@);
                        assert(has_log(t, key@));
                    }
                    let log = &self.logs[li].1;
                    let len = log.len();
                    let start = if (off as usize) < len {
                        off as usize
                    } else {
                        len
                    };
                    let mut entries: Vec<(usize, u32)> = Vec::new();
                    let mut k: usize = start;
                    while k < len
                        invariant
                            start <= k <= len,
                            len == log@.len(),
                            (off as usize) < len ==> start == off as usize,
                            (off as usize) >= len ==> start == len,
                            entries@.len() == k - start,
                            forall|w: int|
                                0 <= w < entries@.len() ==> #[trigger] entries@[w] == ((start
                                    + w) as usize, log@[start + w]),
                        decreases len - k,
                    {
                        entries.push((k, log[k]));
                        k = k + 1;
                    }
                    proof {
                        assert(log@ == spec_log(t, key@));
                        assert(entries@ =~= entries_from(log@, off as int));
                    }
                    let kc = copy_bytes(key);
                    let ghost pre_out = out@;
                    out.push((kc, entries));
                    proof {
                        assert(poll_out_view(out@) =~= poll_out_view(pre_out).push(
                            (key@, entries@),
                        ));
                        assert(poll_out_view(out@) =~= spec_poll(t, ov.subrange(0, q as int + 1)));
                    }
                },
                None => {
                    proof {
                        assert(!has_log(t, key@));
                        assert(poll_out_view(out@) =~= spec_poll(t, ov.subrange(0, q as int + 1)));
                    }
                },
            }
            q = q + 1;
        }
        proof {
            assert(ov.subrange(0, n as int) =~= ov);
        }
        out
    }

    /// Accepts a commit without persisting it: committed offsets are
    /// not kept, and `list_committed_offsets` reports log lengths
    /// instead.
    pub fn commit_offsets(&self) {
    }

    /// Reports, for each requested key that has a log, in request
    /// order, the log's current length in place of a committed offset.
    pub fn list_committed_offsets(&self, keys: &Vec<Vec<u8>>) -> (r: Vec<(Vec<u8>, usize)>)
        ensures
            lco_out_view(r@) == spec_lco(logs_view(self.logs@), keys_view(keys@)),
    {
        let ghost t = logs_view(self.logs@);
        let ghost kv = keys_view(keys@);
        let n = keys.len();
        let mut out: Vec<(Vec<u8>, usize)> = Vec::new();
        let mut q: usize = 0;
        proof {
            assert(kv.subrange(0, 0) =~= Seq::<Seq<u8>>::empty());
            assert(lco_out_view(out@) =~= spec_lco(t, kv.subrange(0, 0)));
        }
        while q < n
            invariant
                0 <= q <= n,
                n == keys@.len(),
                kv == keys_view(keys@),
                t == logs_view(self.logs@),
                lco_out_view(out@) == spec_lco(t, kv.subrange(0, q as int)),
            decreases n - q,
        {
            let key = &keys[q];
            proof {
                assert(kv.subrange(0, q as int + 1).drop_last() =~= kv.subrange(0, q as int));
                assert(kv.subrange(0, q as int + 1).last() == kv[q as int]);
                assert(kv[q as int] == keys@[q as int]@);
            }
            match self.find_log(key) {
                Some(li) => {
                    proof {
                        assert(t[li as int].0 == key@);
                        assert(has_log(t, key@));
                    }
                    let len = self.logs[li].1.len();
                    let kc = copy_bytes(key);
                    let ghost pre_out = out@;
                    out.push((kc, len));
                    proof {
                        assert(len == spec_log(t, key@).len());
                        assert(lco_out_view(out@) =~= lco_out_view(pre_out).push(
                            (key@, len as int),
                        ));
                        assert(lco_out_view(out@) =~= spec_lco(t, kv.subrange(0, q as int + 1)));
                    }
                },
                None => {
                    proof {
                        assert(!has_log(t, key@));
                        assert(lco_out_view(out@) =~= spec_lco(t, kv.subrange(0, q as int + 1)));
                    }
                },
            }
            q = q + 1;
        }
        proof {
            assert(kv.subrange(0, n as int) =~= kv);
        }
        out
    }

    /// The index of the log bound to `key`, if any.
    fn find_log(&self, key: &Vec<u8>) -> (r: Option<usize>)
        ensures
            r matches Some(i) ==> 0 <= i < self.logs@.len() && self.logs@[i as int].0@ == key@
                && self.logs@[i as int].1@ == spec_log(logs_view(self.logs@), key@),
            r is None ==> !has_log(logs_view(self.logs@), key@),
    {
        let n = self.logs.len();
        let mut i: usize = 0;
        while i < n
            invariant
                0 <= i <= n,
                n == self.logs@.len(),
                forall|j: int| 0 <= j < i ==> logs_view(self.logs@)[j].0 != key@,
            decreases n - i,
        {
            if eq_bytes(&self.logs[i].0, key) {
                proof {
                    assert(logs_view(self.logs@)[i as int].0 == key@);
                    lemma_log_at_first(logs_view(self.logs@), key@, i as int);
                }
                return Some(i);
            }
            proof {
                assert(logs_view(self.logs@)[i as int].0 == self.logs@[i as int].0@);
            }
            i = i + 1;
        }
        proof {
            if has_log(logs_view(self.logs@), key@) {
                let w = choose|w: int|
                    0 <= w < logs_view(self.logs@).len() && logs_view(self.logs@)[w].0 == key@;
                assert(false);
            }
        }
        None
    }
}

/// Reports whether two byte strings hold the same bytes.
fn eq_bytes(a: &Vec<u8>, b: &Vec<u8>) -> (r: bool)
    ensures
        r == (a@ == b@),
{
    if a.len() != b.len() {
        assert(a@.len() != b@.len());
        return false;
    }
    let n = a.len();
    let mut i: usize = 0;
    while i < n
        invariant
            0 <= i <= n,
            n == a@.len() && n == b@.len(),
            forall|k: int| 0 <= k < i ==> a@[k] == b@[k],
        decreases n - i,
    {
        if a[i] != b[i] {
            return false;
        }
        assert(a@[i as int] == b@[i as int]);
        i = i + 1;
    }
    proof {
        assert(a@ =~= b@);
    }
    true
}

/// A fresh copy of a byte string.
fn copy_bytes(v: &Vec<u8>) -> (r: Vec<u8>)
    ensures
        r@ == v@,
{
    let n = v.len();
    let mut out: Vec<u8> = Vec::new();
    let mut i: usize = 0;
    while i < n
        invariant
            0 <= i <= n,
            n == v@.len(),
            out@ == v@.subrange(0, i as int),
        decreases n - i,
    {
        out.push(v[i]);
        proof {
            assert(out@ =~= v@.subrange(0, i as int + 1));
        }
        i = i + 1;
    }
    proof {
        assert(v@.subrange(0, n as int) =~= v@);
    }
    out
}

/// Appends `msg` to the log at index `i`.
fn vec_push_at(logs: &mut Vec<(Vec<u8>, Vec<u32>)>, i: usize, msg: u32)
    requires
        i < old(logs)@.len(),
    ensures
        final(logs)@.len() == old(logs)@.len(),
        final(logs)@[i as int].0 == old(logs)@[i as int].0,
        final(logs)@[i as int].1@ == old(logs)@[i as int].1@.push(msg),
        forall|j: int|
            0 <= j < old(logs)@.len() && j != i ==> final(logs)@[j] == old(logs)@[j],
{
    let entry = &mut logs[i];
    entry.1.push(msg);
}

/// Lookups walk to the first matching key.
proof fn lemma_log_at_first(t: Seq<(Seq<u8>, Seq<u32>)>, key: Seq<u8>, i: int)
    requires
        0 <= i < t.len(),
        t[i].0 == key,
        forall|j: int| 0 <= j < i ==> t[j].0 != key,
    ensures
        spec_log(t, key) == t[i].1,
        has_log(t, key),
    decreases t.len(),
{
    if i == 0 {
    } else {
        let rest = t.drop_first();
        assert forall|j: int| 0 <= j < i - 1 implies rest[j].0 != key by {
            assert(rest[j] == t[j + 1]);
        }
        assert(rest[i - 1] == t[i]);
        lemma_log_at_first(rest, key, i - 1);
    }
}

/// A key bound to no log looks up to the empty log.
proof fn lemma_log_missing(t: Seq<(Seq<u8>, Seq<u32>)>, key: Seq<u8>)
    requires
        !has_log(t, key),
    ensures
        spec_log(t, key) == Seq::<u32>::empty(),
    decreases t.len(),
{
    if t.len() > 0 {
        assert(t[0].0 != key);
        let rest = t.drop_first();
        assert forall|i: int| 0 <= i < rest.len() implies rest[i].0 != key by {
            assert(rest[i] == t[i + 1]);
        }
        lemma_log_missing(rest, key);
    }
}

/// Appending a fresh key's log binds that key and nothing else.
proof fn lemma_log_at_last(t: Seq<(Seq<u8>, Seq<u32>)>, key: Seq<u8>, log: Seq<u32>)
    requires
        !has_log(t, key),
    ensures
        spec_log(t.push((key, log)), key) == log,
    decreases t.len(),
{
    if t.len() == 0 {
        assert(t.push((key, log))[0] == (key, log));
    } else {
        assert(t[0].0 != key);
        let rest = t.drop_first();
        assert forall|i: int| 0 <= i < rest.len() implies rest[i].0 != key by {
            assert(rest[i] == t[i + 1]);
        }
        lemma_log_at_last(rest, key, log);
        assert(t.push((key, log)).drop_first() =~= rest.push((key, log)));
        assert(t.push((key, log))[0] == t[0]);
    }
}

/// Appending under one key leaves every other key's log unchanged.
proof fn lemma_log_push_other(
    t: Seq<(Seq<u8>, Seq<u32>)>,
    key: Seq<u8>,
    log: Seq<u32>,
    other: Seq<u8>,
)
    requires
        other != key,
    ensures
        spec_log(t.push((key, log)), other) == spec_log(t, other),
    decreases t.len(),
{
    if t.len() == 0 {
        assert(t.push((key, log))[0] == (key, log));
        assert(t.push((key, log)).drop_first() =~= Seq::<(Seq<u8>, Seq<u32>)>::empty());
        assert(spec_log(t.push((key, log)).drop_first(), other) == Seq::<u32>::empty());
        assert(spec_log(t, other) == Seq::<u32>::empty());
    } else {
        lemma_log_push_other(t.drop_first(), key, log, other);
        assert(t.push((key, log)).drop_first() =~= t.drop_first().push((key, log)));
        assert(t.push((key, log))[0] == t[0]);
    }
}

/// Updating the first log bound to a key rebinds that key and nothing
/// else.
proof fn lemma_log_update(t: Seq<(Seq<u8>, Seq<u32>)>, key: Seq<u8>, i: int, msg: u32)
    requires
        0 <= i < t.len(),
        t[i].0 == key,
        forall|j: int| 0 <= j < i ==> t[j].0 != key,
    ensures
        spec_log(t.update(i, (t[i].0, t[i].1.push(msg))), key) == t[i].1.push(msg),
        forall|k2: Seq<u8>|
            k2 != key ==> #[trigger] spec_log(t.update(i, (t[i].0, t[i].1.push(msg))), k2)
                == spec_log(t, k2),
{
    let t2 = t.update(i, (t[i].0, t[i].1.push(msg)));
    assert forall|j: int| 0 <= j < i implies t2[j].0 != key by {
        assert(t2[j] == t[j]);
    }
    assert(t2[i].0 == key);
    lemma_log_at_first(t2, key, i);
    assert forall|k2: Seq<u8>| k2 != key implies #[trigger] spec_log(t2, k2) == spec_log(
        t,
        k2,
    ) by {
        lemma_log_update_other(t, i, (t[i].0, t[i].1.push(msg)), k2);
    }
}

/// An update that keeps an entry's key leaves every other key's log
/// unchanged.
proof fn lemma_log_update_other(
    t: Seq<(Seq<u8>, Seq<u32>)>,
    i: int,
    entry: (Seq<u8>, Seq<u32>),
    other: Seq<u8>,
)
    requires
        0 <= i < t.len(),
        entry.0 == t[i].0,
        other != t[i].0,
    ensures
        spec_log(t.update(i, entry), other) == spec_log(t, other),
    decreases t.len(),
{
    let t2 = t.update(i, entry);
    if i == 0 {
        assert(t2[0] == entry);
        assert(t2.drop_first() =~= t.drop_first());
    } else {
        assert(t2[0] == t[0]);
        assert(t2.drop_first() =~= t.drop_first().update(i - 1, entry));
        assert(t.drop_first()[i - 1] == t[i]);
        lemma_log_update_other(t.drop_first(), i - 1, entry, other);
    }
}

} // verus!
