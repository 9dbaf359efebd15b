//! The producing side: a router over the producer ends of all links, with a
//! cursor that persists across sends.
use crate::receiver::Receiver;
use crate::rotation::{
    ascending, landing, lemma_landing_is_target, lemma_prune_step, lemma_pruned_within,
    lemma_wrap_once, pruned, start_of, target,
};
use std::sync::mpsc;
use vstd::prelude::*;

verus! {

/// The sending handle: every value goes to exactly one live receiver.
#[verifier::reject_recursive_types(T)]
pub struct Sender<T> {
    senders: Vec<mpsc::Sender<T>>,
    pos: usize,
    /// The identifier of each link, in the order of `senders`.
    ids: Ghost<Seq<nat>>,
    /// The identifier the next link will get.
    next_id: Ghost<nat>,
    /// Each value handed to a link, with the identifier of that link.
    handed: Ghost<Seq<(nat, T)>>,
}

/// A new channel: its sender, and the receiver of the sender's first link.
pub fn channel<T>() -> (r: (Sender<T>, Receiver<T>))
    ensures
        r.0.wf(),
        r.0.links() == seq![r.1.id()],
        r.0.cursor() == 0,
        r.0.next_id() == r.1.id() + 1,
        r.0.handed() == Seq::<(nat, T)>::empty(),
{
    let (tx, rx) = mpsc::channel();
    let ghost first: Seq<nat> = seq![0];
    let sender = Sender {
        senders: vec![tx],
        pos: 0,
        ids: Ghost(first),
        next_id: Ghost(1),
        handed: Ghost(Seq::empty()),
    };
    let receiver = Receiver { inner: rx, id: Ghost(0) };
    (sender, receiver)
}

impl<T> Sender<T> {
    /// The identifiers of the links still in the rotation, in rotation order.
    pub closed spec fn links(&self) -> Seq<nat> {
        self.ids@
    }

    /// The index of the link that took the last value.
    pub closed spec fn cursor(&self) -> nat {
        self.pos as nat
    }

    /// The identifier that the next receiver will get; all links have smaller ones.
    pub closed spec fn next_id(&self) -> nat {
        self.next_id@
    }

    /// Every value handed to a link so far, with the identifier of that link.
    pub closed spec fn handed(&self) -> Seq<(nat, T)> {
        self.handed@
    }

    /// One identifier per link, in the order the links were added, all below
    /// `next_id`; the cursor is within the links, or at 0 when there are none.
    pub closed spec fn wf(&self) -> bool {
        &&& self.senders@.len() == self.ids@.len()
        &&& (self.pos < self.senders@.len() || self.pos == 0)
        &&& ascending(self.ids@)
        &&& forall|i: int| 0 <= i < self.ids@.len() ==> self.ids@[i] < self.next_id@
    }

    /// `after` and `r` are what a send of `t` from `before` leaves and returns
    /// when the first `k` links in rotation order refused the value: those
    /// links are pruned, and the value went to the next one, or, when all
    /// refused, comes back in the error.
    pub open spec fn sent_after(before: Self, after: Self, t: T, r: Result<(), mpsc::SendError<T>>, k: int) -> bool {
        let links = before.links();
        let n = links.len() as int;
        let s = start_of(before.cursor() as int, n);
        &&& 0 <= k <= n
        &&& after.links() == pruned(links, s, k)
        &&& after.next_id() == before.next_id()
        &&& k < n ==> {
            &&& r is Ok
            &&& after.cursor() == landing(n, s, k)
            &&& after.handed() == before.handed().push((target(links, s, k), t))
        }
        &&& k == n ==> {
            &&& r is Err
            &&& r->Err_0.0 == t
            &&& after.handed() == before.handed()
        }
    }

    /// Adds a link at the end of the rotation and returns its receiver.
    pub fn new_receiver(&mut self) -> (r: Receiver<T>)
        requires
            old(self).wf(),
        ensures
            final(self).wf(),
            r.id() == old(self).next_id(),
            final(self).links() == old(self).links().push(r.id()),
            final(self).next_id() == old(self).next_id() + 1,
            final(self).cursor() == old(self).cursor(),
            final(self).handed() == old(self).handed(),
    {
        let (tx, rx) = mpsc::channel();
        self.senders.push(tx);
        let ghost id = self.next_id@;
        self.ids = Ghost(self.ids@.push(id));
        self.next_id = Ghost(id + 1);
        Receiver { inner: rx, id: Ghost(id) }
    }

    /// The cursor lies within the links whenever there are any.
    pub proof fn lemma_cursor_in_range(&self)
        requires
            self.wf(),
        ensures
            self.links().len() > 0 ==> self.cursor() < self.links().len(),
            self.links().len() == 0 ==> self.cursor() == 0,
    {
    }

    /// Settles one hand-off to the link under the cursor, given what that
    /// link's `send` returned. An acceptance ends the walk: `Ok(None)`, with
    /// the links and the cursor as they were. A refusal means the receiver is
    /// gone: the link is pruned, the next link in rotation order moves under
    /// the cursor, and the value comes back, as `Ok(Some(_))` to try again, or
    /// in the error when no link is left.
    pub fn settle(&mut self, outcome: Result<(), mpsc::SendError<T>>) -> (r: Result<
        Option<T>,
        mpsc::SendError<T>,
    >)
        requires
            old(self).wf(),
            0 < old(self).links().len(),
            old(self).cursor() < old(self).links().len(),
        ensures
            final(self).wf(),
            final(self).next_id() == old(self).next_id(),
            final(self).handed() == old(self).handed(),
            outcome is Ok ==> r == Ok::<Option<T>, mpsc::SendError<T>>(None)
                && final(self).links() == old(self).links()
                && final(self).cursor() == old(self).cursor(),
            outcome is Err ==> {
                &&& final(self).links() == old(self).links().remove(old(self).cursor() as int)
                &&& final(self).cursor() == if old(self).cursor() + 1 == old(self).links().len() {
                    0
                } else {
                    old(self).cursor()
                }
                &&& final(self).links().len() == 0 ==> r == Err::<Option<T>, mpsc::SendError<T>>(
                    outcome->Err_0,
                )
                &&& final(self).links().len() > 0 ==> r == Ok::<Option<T>, mpsc::SendError<T>>(
                    Some(outcome->Err_0.0),
                )
            },
    {
        match outcome {
            Ok(()) => Ok(None),
            Err(refused) => {
                let ghost before = self.ids@;
                self.senders.remove(self.pos);
                self.ids = Ghost(self.ids@.remove(self.pos as int));
                if self.pos == self.senders.len() {
                    self.pos = 0;
                }
                proof {
                    assert forall|i: int, j: int|
                        0 <= i < j < self.ids@.len() implies self.ids@[i] < self.ids@[j] by {
                        let i0 = if i < old(self).pos { i } else { i + 1 };
                        let j0 = if j < old(self).pos { j } else { j + 1 };
                        assert(self.ids@[i] == before[i0]);
                        assert(self.ids@[j] == before[j0]);
                    }
                    assert forall|i: int| 0 <= i < self.ids@.len() implies self.ids@[i] < self.next_id@ by {
                        let i0 = if i < old(self).pos { i } else { i + 1 };
                        assert(self.ids@[i] == before[i0]);
                    }
                }
                if self.senders.len() == 0 {
                    Err(refused)
                } else {
                    let mpsc::SendError(back) = refused;
                    Ok(Some(back))
                }
            },
        }
    }

    /// Hands `t` to one live link, walking the rotation from one past the
    /// cursor. Each link's answer goes through `settle`: a link that refuses
    /// the value has lost its receiver and is pruned on the spot. Fails,
    /// giving `t` back, only when every link refused it, which leaves no link
    /// at all.
    ///
    /// With `k` the number of links that refused: those are the first `k` in
    /// rotation order, and the value went to the next one.
    pub fn send(&mut self, t: T) -> (r: Result<(), mpsc::SendError<T>>)
        requires
            old(self).wf(),
        ensures
            final(self).wf(),
            final(self).next_id() == old(self).next_id(),
            exists|k: int| #[trigger] Self::sent_after(*old(self), *final(self), t, r, k),
            old(self).links().len() == 0 ==> r is Err && final(self).links().len() == 0,
            r is Err ==> r->Err_0.0 == t && final(self).links().len() == 0,
    {
        let ghost links = self.ids@;
        let ghost n = links.len() as int;
        let ghost s = start_of(self.pos as int, n);
        let ghost t0 = t;
        let ghost mut k: int = 0;
        let mut v = t;
        if self.senders.len() > 0 {
            self.pos = if self.pos + 1 == self.senders.len() {
                0
            } else {
                self.pos + 1
            };
        }
        proof {
            assert(pruned(links, s, 0) =~= links);
        }
        while self.senders.len() > 0
            invariant
                0 <= k <= n,
                n == links.len(),
                n > 0 ==> 0 <= s < n,
                n == 0 ==> self.senders@.len() == 0,
                self.senders@.len() == self.ids@.len(),
                self.senders@.len() == n - k,
                self.ids@ == pruned(links, s, k),
                self.senders@.len() > 0 ==> self.pos == landing(n, s, k),
                self.senders@.len() == 0 ==> self.pos == 0,
                v == t0,
                t0 == t,
                self.wf(),
                ascending(links),
                forall|i: int| 0 <= i < links.len() ==> links[i] < self.next_id@,
                self.next_id == old(self).next_id,
                self.handed == old(self).handed,
                links == old(self).ids@,
                s == start_of(old(self).pos as int, n),
            decreases self.senders@.len(),
        {
            proof {
                lemma_landing_is_target(links, s, k);
                lemma_prune_step(links, s, k);
            }
            let ghost to = self.ids@[self.pos as int];
            let outcome = self.senders[self.pos].send(v);
            match self.settle(outcome) {
                Ok(None) => {
                    self.handed = Ghost(self.handed@.push((to, t0)));
                    proof {
                        assert(Self::sent_after(*old(self), *self, t0, Ok(()), k));
                    }
                    return Ok(());
                },
                Ok(Some(back)) => {
                    v = back;
                },
                Err(e) => {
                    proof {
                        k = k + 1;
                        assert(pruned(links, s, n) =~= Seq::<nat>::empty());
                        assert(Self::sent_after(*old(self), *self, t0, Err(e), k));
                    }
                    return Err(e);
                },
            }
            proof {
                k = k + 1;
            }
        }
        proof {
            assert(pruned(links, s, k) =~= Seq::<nat>::empty());
            assert(Self::sent_after(*old(self), *self, t0, Err(mpsc::SendError(v)), k));
        }
        Err(mpsc::SendError(v))
    }

    /// Every identifier in the rotation is below `next_id`, so a new receiver
    /// never takes the place of a link that was pruned.
    pub proof fn lemma_links_below_next_id(&self)
        requires
            self.wf(),
        ensures
            forall|i: int| 0 <= i < self.links().len() ==> #[trigger] self.links()[i] < self.next_id(),
            self.links().no_duplicates(),
    {
    }

    /// A send with `k` refusals removes exactly `k` links and nothing else:
    /// the links left were all there before, in the same order, and the
    /// cursor is within them.
    pub proof fn lemma_send_prunes_only_refusals(before: Self, after: Self, t: T, r: Result<(), mpsc::SendError<T>>, k: int)
        requires
            before.wf(),
            Self::sent_after(before, after, t, r, k),
        ensures
            after.links().len() == before.links().len() - k,
            forall|x: nat| after.links().contains(x) ==> before.links().contains(x),
            ascending(after.links()),
            r is Ok ==> after.cursor() < after.links().len(),
    {
        let links = before.links();
        let n = links.len() as int;
        let s = start_of(before.cursor() as int, n);
        if n > 0 {
            lemma_pruned_within(links, s, k);
            if k < n {
                lemma_landing_is_target(links, s, k);
            } else {
                assert(pruned(links, s, k) =~= Seq::<nat>::empty());
            }
        } else {
            assert(pruned(links, s, k) =~= Seq::<nat>::empty());
        }
    }

    /// A send that succeeds records exactly one hand-off, of the value sent,
    /// to a link that is still in the rotation afterwards.
    pub proof fn lemma_handed_to_live_link(before: Self, after: Self, t: T, r: Result<(), mpsc::SendError<T>>, k: int)
        requires
            before.wf(),
            Self::sent_after(before, after, t, r, k),
            r is Ok,
        ensures
            after.handed().len() == before.handed().len() + 1,
            after.handed().drop_last() == before.handed(),
            after.handed().last().1 == t,
            after.links().contains(after.handed().last().0),
            before.links().contains(after.handed().last().0),
    {
        let links = before.links();
        let n = links.len() as int;
        let s = start_of(before.cursor() as int, n);
        lemma_landing_is_target(links, s, k);
        lemma_pruned_within(links, s, k);
        assert(after.handed().drop_last() =~= before.handed());
        assert(after.links()[landing(n, s, k)] == after.handed().last().0);
    }
}

/// No loss, no duplication: over a run of sends that all succeed, the
/// hand-offs recorded are one per send, in order, each of the value sent and
/// to a link in the rotation at that moment. So the values handed out are
/// exactly the values sent, as a sequence and as a multiset.
pub proof fn lemma_no_loss_no_duplication<T>(states: Seq<Sender<T>>, values: Seq<T>, refused: Seq<int>)
    requires
        states.len() == values.len() + 1,
        refused.len() == values.len(),
        forall|i: int| 0 <= i < states.len() ==> (#[trigger] states[i]).wf(),
        forall|i: int|
            0 <= i < values.len() ==> #[trigger] Sender::sent_after(
                states[i],
                states[i + 1],
                values[i],
                Ok(()),
                refused[i],
            ),
    ensures
        ({
            let h0 = states[0].handed().len() as int;
            let last = states[values.len() as int].handed();
            &&& last.len() == h0 + values.len()
            &&& last.subrange(0, h0) == states[0].handed()
            &&& forall|i: int|
                0 <= i < values.len() ==> {
                    &&& (#[trigger] last[h0 + i]).1 == values[i]
                    &&& states[i].links().contains(last[h0 + i].0)
                }
            &&& last.subrange(h0, last.len() as int).map_values(|p: (nat, T)| p.1) == values
            &&& last.subrange(h0, last.len() as int).map_values(|p: (nat, T)| p.1).to_multiset()
                == values.to_multiset()
        }),
    decreases values.len(),
{
    let m = values.len() as int;
    if m > 0 {
        lemma_no_loss_no_duplication(states.drop_last(), values.drop_last(), refused.drop_last());
        assert(Sender::sent_after(states[m - 1], states[m], values[m - 1], Ok(()), refused[m - 1]));
        assert(states.drop_last()[m - 1] == states[m - 1]);
        assert(states[m - 1].wf());
        Sender::lemma_handed_to_live_link(states[m - 1], states[m], values[m - 1], Ok(()), refused[m - 1]);
        let h0 = states[0].handed().len() as int;
        let prev = states[m - 1].handed();
        let last = states[m].handed();
        assert(last.subrange(0, h0) =~= prev.subrange(0, h0));
        assert forall|i: int| 0 <= i < m implies {
            &&& (#[trigger] last[h0 + i]).1 == values[i]
            &&& states[i].links().contains(last[h0 + i].0)
        } by {
            if i < m - 1 {
                assert(last[h0 + i] == prev[h0 + i]);
                assert(values.drop_last()[i] == values[i]);
                assert(states.drop_last()[i] == states[i]);
            }
        }
        let tail = last.subrange(h0, last.len() as int).map_values(|p: (nat, T)| p.1);
        assert forall|i: int| 0 <= i < m implies tail[i] == values[i] by {
            assert(last[h0 + i].1 == values[i]);
        }
        assert(tail =~= values);
    } else {
        assert(states[0].handed().subrange(0, states[0].handed().len() as int) =~= states[0].handed());
        assert(states[0].handed().subrange(
            states[0].handed().len() as int,
            states[0].handed().len() as int,
        ).map_values(|p: (nat, T)| p.1) =~= values);
    }
}

/// Round robin: from a state with `n` links, `n` sends that no link refuses
/// hand one value to each link, exactly once, in rotation order starting one
/// past the cursor.
pub proof fn lemma_round_robin<T>(states: Seq<Sender<T>>, values: Seq<T>)
    requires
        states.len() == values.len() + 1,
        values.len() == states[0].links().len(),
        forall|i: int| 0 <= i < states.len() ==> (#[trigger] states[i]).wf(),
        forall|i: int|
            0 <= i < values.len() ==> #[trigger] Sender::sent_after(
                states[i],
                states[i + 1],
                values[i],
                Ok(()),
                0,
            ),
    ensures
        ({
            let links = states[0].links();
            let n = links.len() as int;
            let s = start_of(states[0].cursor() as int, n);
            let h0 = states[0].handed().len() as int;
            let last = states[n].handed();
            let ids = last.subrange(h0, h0 + n).map_values(|p: (nat, T)| p.0);
            &&& last.len() == h0 + n
            &&& forall|j: int| 0 <= j < n ==> #[trigger] ids[j] == links[(s + j) % n]
            &&& ids.no_duplicates()
            &&& forall|i: int| 0 <= i < n ==> ids.contains(#[trigger] links[i])
        }),
{
    let links = states[0].links();
    let n = links.len() as int;
    let s = start_of(states[0].cursor() as int, n);
    let h0 = states[0].handed().len() as int;
    if n > 0 {
        lemma_rotation_steps(states, values, n);
        let last = states[n].handed();
        let ids = last.subrange(h0, h0 + n).map_values(|p: (nat, T)| p.0);
        states[0].lemma_links_below_next_id();
        assert forall|j: int| 0 <= j < n implies #[trigger] ids[j] == links[(s + j) % n] by {
            assert(ids[j] == last[h0 + j].0);
        }
        assert forall|j1: int, j2: int| 0 <= j1 < ids.len() && 0 <= j2 < ids.len() && j1 != j2 implies ids[j1] != ids[j2] by {
            lemma_wrap_once(s + j1, n);
            lemma_wrap_once(s + j2, n);
            assert(ids[j1] == links[(s + j1) % n]);
            assert(ids[j2] == links[(s + j2) % n]);
        }
        assert forall|i: int| 0 <= i < n implies ids.contains(#[trigger] links[i]) by {
            let j = if i >= s {
                i - s
            } else {
                i + n - s
            };
            lemma_wrap_once(s + j, n);
            assert(ids[j] == links[i]);
        }
    }
}

/// The first `j` sends of a run in which no link refuses: the links stay as
/// they are, the walk moves one place per send, and each hand-off goes to the
/// link where the walk stood.
proof fn lemma_rotation_steps<T>(states: Seq<Sender<T>>, values: Seq<T>, j: int)
    requires
        states.len() == values.len() + 1,
        values.len() == states[0].links().len(),
        forall|i: int| 0 <= i < states.len() ==> (#[trigger] states[i]).wf(),
        forall|i: int|
            0 <= i < values.len() ==> #[trigger] Sender::sent_after(
                states[i],
                states[i + 1],
                values[i],
                Ok(()),
                0,
            ),
        0 < values.len(),
        0 <= j <= values.len(),
    ensures
        ({
            let links = states[0].links();
            let n = links.len() as int;
            let s = start_of(states[0].cursor() as int, n);
            let h0 = states[0].handed().len() as int;
            &&& states[j].links() == links
            &&& start_of(states[j].cursor() as int, n) == (s + j) % n
            &&& states[j].handed().len() == h0 + j
            &&& forall|i: int| 0 <= i < j ==> (#[trigger] states[j].handed()[h0 + i]).0 == links[(s + i) % n]
        }),
    decreases j,
{
    let links = states[0].links();
    let n = links.len() as int;
    let s = start_of(states[0].cursor() as int, n);
    let h0 = states[0].handed().len() as int;
    if j == 0 {
        lemma_wrap_once(s, n);
    } else {
        lemma_rotation_steps(states, values, j - 1);
        let p = j - 1;
        assert(Sender::sent_after(states[p], states[p + 1], values[p], Ok(()), 0));
        assert(states[p].wf());
        let sp = start_of(states[p].cursor() as int, n);
        assert(pruned(links, sp, 0) =~= links);
        lemma_wrap_once(sp, n);
        lemma_wrap_once(s + p, n);
        lemma_wrap_once(s + j, n);
        assert forall|i: int| 0 <= i < j implies (#[trigger] states[j].handed()[h0 + i]).0 == links[(s + i) % n] by {
            if i < p {
                assert(states[j].handed()[h0 + i] == states[p].handed()[h0 + i]);
            }
        }
    }
}

/// Pruning: when the link at the head of the walk refused the value, the
/// value still goes to another link when one accepts, and the refusing link
/// leaves the rotation for good: it is not among the links left, and every
/// link a later receiver gets is new.
pub proof fn lemma_refusing_link_pruned<T>(
    before: Sender<T>,
    after: Sender<T>,
    t: T,
    r: Result<(), mpsc::SendError<T>>,
    k: int,
)
    requires
        before.wf(),
        Sender::sent_after(before, after, t, r, k),
        0 < k,
    ensures
        ({
            let links = before.links();
            let x = links[start_of(before.cursor() as int, links.len() as int)];
            &&& !after.links().contains(x)
            &&& x < after.next_id()
            &&& r is Ok ==> after.handed().last().0 != x && after.handed().last().1 == t
        }),
{
    let links = before.links();
    let n = links.len() as int;
    let s = start_of(before.cursor() as int, n);
    let x = links[s];
    before.lemma_links_below_next_id();
    lemma_wrap_once(s, n);
    assert(pruned(links, s, k).len() == n - k) by {
        if k < n {
            lemma_landing_is_target(links, s, k);
        }
    }
    assert(!after.links().contains(x)) by {
        if after.links().contains(x) {
            let i = choose|i: int| 0 <= i < after.links().len() && after.links()[i] == x;
            if s + k <= n {
                if i < s {
                    assert(links[i] == x);
                } else {
                    assert(links[i + k] == x);
                }
            } else {
                assert(links[i + s + k - n] == x);
            }
        }
    }
    if r is Ok {
        lemma_landing_is_target(links, s, k);
        assert(after.links()[landing(n, s, k)] == after.handed().last().0);
    }
}

/// Exhaustion: a send that fails gives back the value it was given and
/// leaves no link, so the next send, before any new receiver, fails the same
/// way with its own value.
pub proof fn lemma_exhausted<T>(
    before: Sender<T>,
    after: Sender<T>,
    t: T,
    r: Result<(), mpsc::SendError<T>>,
    k: int,
    next: Sender<T>,
    u: T,
    q: Result<(), mpsc::SendError<T>>,
    j: int,
)
    requires
        before.wf(),
        Sender::sent_after(before, after, t, r, k),
        r is Err,
        Sender::sent_after(after, next, u, q, j),
    ensures
        r->Err_0.0 == t,
        after.links().len() == 0,
        q is Err,
        q->Err_0.0 == u,
        next.links().len() == 0,
        next.handed() == before.handed(),
{
    let links = before.links();
    let n = links.len() as int;
    let s = start_of(before.cursor() as int, n);
    assert(pruned(links, s, n) =~= Seq::<nat>::empty());
    assert(pruned(Seq::<nat>::empty(), start_of(after.cursor() as int, 0), 0) =~= Seq::<nat>::empty());
}

} // verus!
