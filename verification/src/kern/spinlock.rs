use vstd::prelude::*;

verus! {

/// A ticket lock over `data`: a locker takes the next ticket and enters
/// when the lock serves that ticket; each release serves the next ticket,
/// so lockers enter in the order they took their tickets. A holder keeps
/// whether interrupts were on when it locked, to turn them back on when it
/// releases. The waiting itself (asking `serves` until it holds) and the
/// interrupt bit belong to the hart.
pub struct SpinLock<T> {
    next_ticket: usize,
    now_serving: usize,
    data: T,
}

/// What the holder of a `SpinLock` keeps: its ticket and whether
/// interrupts were on before it locked.
pub struct SpinLockGuard {
    ticket: usize,
    sie_before: bool,
}

impl SpinLockGuard {
    /// The holder's ticket.
    pub closed spec fn ticket(&self) -> usize {
        self.ticket
    }

    /// Whether interrupts were on before the holder locked.
    pub closed spec fn sie_before(&self) -> bool {
        self.sie_before
    }
}

/// The ticket the lock serves after `k` releases from serving `s`.
pub open spec fn served_after(s: usize, k: nat) -> usize
    decreases k,
{
    if k == 0 {
        s
    } else {
        served_after(s, (k - 1) as nat).wrapping_add(1)
    }
}

/// The ticket handed out to the `i`-th locker (from 0) after `n` was next.
pub open spec fn ticket_after(n: usize, i: nat) -> usize {
    served_after(n, i)
}

impl<T> SpinLock<T> {
    /// The ticket the next locker gets.
    pub closed spec fn next(&self) -> usize {
        self.next_ticket
    }

    /// The ticket whose holder may enter.
    pub closed spec fn serving(&self) -> usize {
        self.now_serving
    }

    /// The protected data.
    pub closed spec fn value(&self) -> T {
        self.data
    }

    /// A free lock over `data`: the first ticket is served.
    pub fn new(data: T) -> (l: Self)
        ensures
            l.next() == 0,
            l.serving() == 0,
            l.value() == data,
    {
        SpinLock { next_ticket: 0, now_serving: 0, data }
    }

    /// Takes the next ticket (the count wraps around).
    pub fn take_ticket(&mut self) -> (t: usize)
        ensures
            t == old(self).next(),
            final(self).next() == old(self).next().wrapping_add(1),
            final(self).serving() == old(self).serving(),
            final(self).value() == old(self).value(),
    {
        let t = self.next_ticket;
        self.next_ticket = self.next_ticket.wrapping_add(1);
        t
    }

    /// Whether the holder of `ticket` may enter now.
    pub fn serves(&self, ticket: usize) -> (b: bool)
        ensures
            b == (self.serving() == ticket),
    {
        self.now_serving == ticket
    }

    /// Enters with `ticket` when it is served, keeping whether interrupts
    /// were on before (`sie_before`); none while another ticket is served.
    pub fn try_enter(&self, ticket: usize, sie_before: bool) -> (g: Option<SpinLockGuard>)
        ensures
            g is Some <==> self.serving() == ticket,
            g matches Some(h) ==> h.ticket() == ticket && h.sie_before() == sie_before,
    {
        if self.now_serving == ticket {
            Some(SpinLockGuard { ticket, sie_before })
        } else {
            None
        }
    }

    /// Releases the lock that `guard` holds: the next ticket is served.
    /// Returns whether interrupts go back on.
    pub fn unlock(&mut self, guard: SpinLockGuard) -> (enable: bool)
        requires
            guard.ticket() == old(self).serving(),
        ensures
            final(self).serving() == old(self).serving().wrapping_add(1),
            final(self).next() == old(self).next(),
            final(self).value() == old(self).value(),
            enable == guard.sie_before(),
    {
        self.now_serving = self.now_serving.wrapping_add(1);
        guard.sie_before
    }

    /// The protected data, for the holder of `guard`.
    pub fn get(&self, guard: &SpinLockGuard) -> (r: &T)
        requires
            guard.ticket() == self.serving(),
        ensures
            *r == self.value(),
    {
        &self.data
    }

    /// Replaces the protected data, for the holder of `guard`.
    pub fn set(&mut self, guard: &SpinLockGuard, value: T)
        requires
            guard.ticket() == old(self).serving(),
        ensures
            final(self).value() == value,
            final(self).next() == old(self).next(),
            final(self).serving() == old(self).serving(),
    {
        self.data = value;
    }
}

/// Before the count wraps, `k` releases add `k`.
pub proof fn lemma_served_after(s: usize, k: nat)
    requires
        s + k <= usize::MAX,
    ensures
        served_after(s, k) == s + k,
    decreases k,
{
    if k > 0 {
        lemma_served_after(s, (k - 1) as nat);
    }
}

/// Lockers enter in the order they took their tickets: from a lock that
/// serves `s` with `n` next (no ticket outstanding is behind `s`), the
/// `i`-th locker to take a ticket is served after exactly `n - s + i`
/// releases and at no release before; so of two lockers the earlier taker
/// enters first. (Stated while the counts do not wrap around.)
pub proof fn law_tickets_served_in_order(s: usize, n: usize, i: nat, j: nat, k: nat)
    requires
        s <= n,
        i < j,
        n + j <= usize::MAX,
        k <= n - s + j,
    ensures
        served_after(s, k) == ticket_after(n, i) <==> k == n - s + i,
        served_after(s, k) == ticket_after(n, j) <==> k == n - s + j,
        n - s + i < n - s + j,
{
    lemma_served_after(s, k);
    lemma_served_after(n, i);
    lemma_served_after(n, j);
}

} // verus!
