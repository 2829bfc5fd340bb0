//! Connection registry: the shared directory from connection identifier to
//! that connection's outbound delivery channel.
//!
//! The registry owns no business logic. Entries are inserted at
//! registration, removed wholesale at deregistration, and never updated in
//! place. Fan-out reads the entry set and pushes one copy of a payload
//! onto every other connection's channel; a recipient whose channel is
//! already closed is reported in the result and never disturbs delivery to
//! the remaining recipients.

use vstd::prelude::*;
use tokio::sync::mpsc::UnboundedSender;

verus! {

#[verifier::external_type_specification]
#[verifier::external_body]
#[verifier::reject_recursive_types(T)]
pub struct ExUnboundedSender<T>(UnboundedSender<T>);

/// Relies on tokio's `UnboundedSender::send`: pushing onto an unbounded
/// queue never blocks and fails exactly when the receiving half is gone.
/// Whether this delivery succeeded is reported, and nothing else is
/// assumed of it.
#[verifier::external_body]
fn send_text(tx: &UnboundedSender<String>, text: &String) -> bool {
    tx.send(text.clone()).is_ok()
}

/// Registering an identifier that is already present: a violation of the
/// identifier-generation contract, fatal to the caller's reasoning.
#[derive(Clone, Copy, Debug, PartialEq, Eq)]
pub enum RegistryError {
    DuplicateIdentifier,
}

/// The predicate that keeps every identifier but `excluding`.
pub open spec fn not_id(excluding: u64) -> spec_fn(u64) -> bool {
    |j: u64| j != excluding
}

/// The shared directory from connection identifier to outbound channel.
pub struct Registry {
    entries: Vec<(u64, UnboundedSender<String>)>,
}

impl Registry {
    /// The registered identifiers, in insertion order.
    pub closed spec fn ids(&self) -> Seq<u64> {
        self.entries@.map_values(|p: (u64, UnboundedSender<String>)| p.0)
    }

    /// Each identifier appears at most once.
    pub open spec fn wf(&self) -> bool {
        self.ids().no_duplicates()
    }

    pub fn new() -> (r: Registry)
        ensures
            r.wf(),
            r.ids() == Seq::<u64>::empty(),
    {
        let r = Registry { entries: Vec::new() };
        proof {
            assert(r.ids() =~= Seq::<u64>::empty());
        }
        r
    }

    pub fn len(&self) -> (n: usize)
        ensures
            n == self.ids().len(),
    {
        self.entries.len()
    }

    pub fn contains(&self, id: u64) -> (b: bool)
        ensures
            b == self.ids().contains(id),
    {
        let n = self.entries.len();
        let mut k: usize = 0;
        while k < n
            invariant
                k <= n,
                n == self.entries@.len(),
                forall|m: int| 0 <= m < k ==> self.ids()[m] != id,
            decreases n - k,
        {
            if self.entries[k].0 == id {
                proof {
                    assert(self.ids()[k as int] == id);
                }
                return true;
            }
            k = k + 1;
        }
        proof {
            if self.ids().contains(id) {
                let m = choose|m: int| 0 <= m < self.ids().len() && self.ids()[m] == id;
                assert(self.ids()[m] != id);
            }
        }
        false
    }

    /// Insert a new entry. Fails only on a duplicate identifier, and then
    /// changes nothing.
    pub fn register(&mut self, id: u64, tx: UnboundedSender<String>) -> (r: Result<
        (),
        RegistryError,
    >)
        requires
            old(self).wf(),
        ensures
            final(self).wf(),
            r is Ok <==> !old(self).ids().contains(id),
            r is Ok ==> final(self).ids() == old(self).ids().push(id),
            r is Err ==> *final(self) == *old(self),
    {
        if self.contains(id) {
            return Err(RegistryError::DuplicateIdentifier);
        }
        self.entries.push((id, tx));
        proof {
            assert(self.ids() =~= old(self).ids().push(id));
            lemma_push_keeps_no_duplicates(old(self).ids(), id);
        }
        Ok(())
    }

    /// Remove the entry for `id` if present; a no-op when it is absent.
    pub fn deregister(&mut self, id: u64)
        requires
            old(self).wf(),
        ensures
            final(self).wf(),
            final(self).ids() == old(self).ids().filter(not_id(id)),
    {
        let n = self.entries.len();
        let mut k: usize = 0;
        while k < n
            invariant
                k <= n,
                n == self.entries@.len(),
                *self == *old(self),
                old(self).wf(),
                forall|m: int| 0 <= m < k ==> self.ids()[m] != id,
            decreases n - k,
        {
            if self.entries[k].0 == id {
                proof {
                    assert(self.ids()[k as int] == id);
                }
                self.entries.remove(k);
                proof {
                    assert(self.ids() =~= old(self).ids().remove(k as int));
                    lemma_remove_unique_is_filter(old(self).ids(), id, k as int);
                    lemma_filter_props(old(self).ids(), not_id(id));
                }
                return ;
            }
            k = k + 1;
        }
        proof {
            assert(forall|m: int| 0 <= m < self.ids().len() ==> self.ids()[m] != id);
            lemma_filter_all(self.ids(), not_id(id));
        }
    }

    /// Every registered identifier except `excluding`, for fan-out.
    pub fn snapshot_others(&self, excluding: u64) -> (r: Vec<u64>)
        ensures
            r@ == self.ids().filter(not_id(excluding)),
    {
        let n = self.entries.len();
        let mut r: Vec<u64> = Vec::new();
        let mut k: usize = 0;
        while k < n
            invariant
                k <= n,
                n == self.entries@.len(),
                r@ == self.ids().subrange(0, k as int).filter(not_id(excluding)),
            decreases n - k,
        {
            let id = self.entries[k].0;
            if id != excluding {
                r.push(id);
            }
            proof {
                reveal(Seq::filter);
                let next = self.ids().subrange(0, k + 1);
                assert(next.drop_last() =~= self.ids().subrange(0, k as int));
                assert(next.last() == self.ids()[k as int]);
                assert(next.last() == id);
                if id != excluding {
                    assert(next.filter(not_id(excluding)) == self.ids().subrange(
                        0,
                        k as int,
                    ).filter(not_id(excluding)).push(id));
                } else {
                    assert(next.filter(not_id(excluding)) == self.ids().subrange(
                        0,
                        k as int,
                    ).filter(not_id(excluding)));
                }
            }
            k = k + 1;
        }
        proof {
            assert(self.ids().subrange(0, n as int) =~= self.ids());
        }
        r
    }

    /// Push `text` onto the channel of every entry but the originator's.
    /// The result names each recipient exactly once, in registry order,
    /// with whether its channel accepted the payload; one closed channel
    /// neither aborts the loop nor touches any other recipient.
    pub fn broadcast(&self, originator: u64, text: &String) -> (deliveries: Vec<(u64, bool)>)
        ensures
            deliveries@.map_values(|d: (u64, bool)| d.0) == self.ids().filter(
                not_id(originator),
            ),
    {
        let n = self.entries.len();
        let mut deliveries: Vec<(u64, bool)> = Vec::new();
        let mut k: usize = 0;
        while k < n
            invariant
                k <= n,
                n == self.entries@.len(),
                deliveries@.map_values(|d: (u64, bool)| d.0) == self.ids().subrange(
                    0,
                    k as int,
                ).filter(not_id(originator)),
            decreases n - k,
        {
            let id = self.entries[k].0;
            let ghost pre = deliveries@;
            if id != originator {
                let delivered = send_text(&self.entries[k].1, text);
                deliveries.push((id, delivered));
                proof {
                    assert(deliveries@.map_values(|d: (u64, bool)| d.0) =~= pre.map_values(
                        |d: (u64, bool)| d.0,
                    ).push(id));
                }
            }
            proof {
                reveal(Seq::filter);
                let next = self.ids().subrange(0, k + 1);
                assert(next.drop_last() =~= self.ids().subrange(0, k as int));
                assert(next.last() == self.ids()[k as int]);
                assert(next.last() == id);
                if id != originator {
                    assert(next.filter(not_id(originator)) == self.ids().subrange(
                        0,
                        k as int,
                    ).filter(not_id(originator)).push(id));
                } else {
                    assert(next.filter(not_id(originator)) == self.ids().subrange(
                        0,
                        k as int,
                    ).filter(not_id(originator)));
                }
            }
            k = k + 1;
        }
        proof {
            assert(self.ids().subrange(0, n as int) =~= self.ids());
        }
        deliveries
    }
}

// ---------------------------------------------------------------------------
// Fan-out laws
// ---------------------------------------------------------------------------

pub proof fn lemma_push_contains(s: Seq<u64>, v: u64, x: u64)
    ensures
        s.push(v).contains(x) <==> (s.contains(x) || x == v),
{
    if s.push(v).contains(x) {
        let i = choose|i: int| 0 <= i < s.push(v).len() && s.push(v)[i] == x;
        if i < s.len() {
            assert(s[i] == x);
        }
    }
    if s.contains(x) {
        let i = choose|i: int| 0 <= i < s.len() && s[i] == x;
        assert(s.push(v)[i] == x);
    }
    if x == v {
        assert(s.push(v)[s.len() as int] == x);
    }
}

proof fn lemma_push_keeps_no_duplicates(s: Seq<u64>, v: u64)
    requires
        s.no_duplicates(),
        !s.contains(v),
    ensures
        s.push(v).no_duplicates(),
{
    let t = s.push(v);
    assert forall|i: int, j: int|
        0 <= i < t.len() && 0 <= j < t.len() && i != j implies t[i] != t[j] by {
        if i < s.len() && j < s.len() {
            assert(t[i] == s[i] && t[j] == s[j]);
        } else if i < s.len() {
            assert(t[j] == v && t[i] == s[i]);
            if s[i] == v {
                assert(s.contains(v));
            }
        } else {
            assert(t[i] == v && t[j] == s[j]);
            if s[j] == v {
                assert(s.contains(v));
            }
        }
    }
}

/// Filtering keeps a sequence duplicate-free, and keeps exactly the
/// elements that pass the predicate.
pub proof fn lemma_filter_props(s: Seq<u64>, p: spec_fn(u64) -> bool)
    requires
        s.no_duplicates(),
    ensures
        s.filter(p).no_duplicates(),
        forall|x: u64| #[trigger] s.filter(p).contains(x) <==> (s.contains(x) && p(x)),
    decreases s.len(),
{
    reveal(Seq::filter);
    if s.len() == 0 {
        assert forall|x: u64| #[trigger] s.filter(p).contains(x) <==> (s.contains(x) && p(
            x,
        )) by {
            assert(!s.filter(p).contains(x) && !s.contains(x));
        }
    } else {
        let d = s.drop_last();
        let last = s.last();
        assert(d.no_duplicates());
        lemma_filter_props(d, p);
        assert(!d.contains(last)) by {
            if d.contains(last) {
                let i = choose|i: int| 0 <= i < d.len() && d[i] == last;
                assert(s[i] == s[s.len() - 1]);
            }
        }
        if p(last) {
            assert(s.filter(p) == d.filter(p).push(last));
            assert(!d.filter(p).contains(last));
            lemma_push_keeps_no_duplicates(d.filter(p), last);
            assert forall|x: u64| #[trigger] s.filter(p).contains(x) <==> (s.contains(x) && p(
                x,
            )) by {
                lemma_push_contains(d.filter(p), last, x);
                lemma_push_contains(d, last, x);
                assert(d.push(last) =~= s);
            }
        } else {
            assert(s.filter(p) == d.filter(p));
            assert forall|x: u64| #[trigger] s.filter(p).contains(x) <==> (s.contains(x) && p(
                x,
            )) by {
                lemma_push_contains(d, last, x);
                assert(d.push(last) =~= s);
            }
        }
    }
}

/// A filter that keeps everything returns the sequence unchanged.
proof fn lemma_filter_all(s: Seq<u64>, p: spec_fn(u64) -> bool)
    requires
        forall|m: int| 0 <= m < s.len() ==> p(#[trigger] s[m]),
    ensures
        s.filter(p) == s,
    decreases s.len(),
{
    reveal(Seq::filter);
    if s.len() == 0 {
        assert(s.filter(p) =~= s);
    } else {
        let d = s.drop_last();
        assert(forall|m: int| 0 <= m < d.len() ==> p(#[trigger] d[m]));
        lemma_filter_all(d, p);
        assert(p(s.last()));
        assert(s.filter(p) == d.push(s.last()));
        assert(d.push(s.last()) =~= s);
    }
}

/// Removing the one position holding `id` from a duplicate-free sequence
/// is the same as filtering `id` out.
proof fn lemma_remove_unique_is_filter(s: Seq<u64>, id: u64, idx: int)
    requires
        s.no_duplicates(),
        0 <= idx < s.len(),
        s[idx] == id,
    ensures
        s.remove(idx) == s.filter(not_id(id)),
    decreases s.len(),
{
    reveal(Seq::filter);
    let p = not_id(id);
    let d = s.drop_last();
    assert(d.no_duplicates());
    if idx == s.len() - 1 {
        assert(s.remove(idx) =~= d);
        assert(!p(s.last()));
        assert(s.filter(p) == d.filter(p));
        assert(forall|m: int| 0 <= m < d.len() ==> p(#[trigger] d[m])) by {
            assert(forall|m: int| 0 <= m < d.len() ==> d[m] == s[m] && s[m] != s[idx]);
        }
        lemma_filter_all(d, p);
    } else {
        assert(d[idx] == id);
        lemma_remove_unique_is_filter(d, id, idx);
        assert(p(s.last())) by {
            assert(s.last() == s[s.len() - 1] && s[s.len() - 1] != s[idx]);
        }
        assert(s.filter(p) == d.filter(p).push(s.last()));
        assert(s.remove(idx) =~= d.remove(idx).push(s.last()));
    }
}

/// Fan-out reaches everyone but the originator exactly once: the snapshot
/// that excludes originator `k` holds no duplicate, holds every other
/// registered identifier, and never holds `k`.
pub proof fn lemma_fanout_exactly_once(reg: Registry, k: u64)
    requires
        reg.wf(),
    ensures
        reg.ids().filter(not_id(k)).no_duplicates(),
        forall|i: u64| reg.ids().filter(not_id(k)).contains(i) <==> (
        #[trigger] reg.ids().contains(i) && i != k),
        !reg.ids().filter(not_id(k)).contains(k),
{
    lemma_filter_props(reg.ids(), not_id(k));
}

/// After deregistration an identifier is absent from the registry and
/// from every subsequent fan-out snapshot.
pub proof fn lemma_deregistered_absent(reg: Registry, id: u64, excluding: u64)
    requires
        reg.wf(),
    ensures
        !reg.ids().filter(not_id(id)).contains(id),
        !reg.ids().filter(not_id(id)).filter(not_id(excluding)).contains(id),
{
    lemma_filter_props(reg.ids(), not_id(id));
    let once = reg.ids().filter(not_id(id));
    lemma_filter_props(once, not_id(excluding));
}

} // verus!
