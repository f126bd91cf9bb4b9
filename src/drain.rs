//! Non-blocking transfer steps and the drain loops built on them.
//!
//! A transfer attempt on a socket reports `Ok(Some(n))` when `n` bytes moved,
//! `Ok(None)` when the socket would block, and `Err(_)` when it failed. The
//! steps below read such a report and decide whether the caller's drain loop
//! goes on.
use vstd::prelude::*;
use vstd::slice::slice_subrange;
use crate::buffer::ByteRing;

verus! {

/// An operating-system level socket failure.
#[derive(Debug, Clone, Copy, PartialEq, Eq, Structural)]
pub struct IoFailure {
    pub code: i32,
}

/// Whether a drain loop goes on after a transfer that reported `res`: only
/// when some bytes moved.
pub open spec fn keeps_going(res: Result<Option<usize>, IoFailure>) -> bool {
    match res {
        Ok(Some(n)) => n > 0,
        _ => false,
    }
}

/// Records the outcome of one read attempt: the continuation flag is cleared
/// on would-block, on a saturated buffer (nothing moved) and on failure, and
/// left as it was when bytes moved. The outcome is handed back unchanged.
pub fn do_read(res: Result<Option<usize>, IoFailure>, cont: &mut bool) -> (r: Result<Option<usize>, IoFailure>)
    ensures
        r == res,
        *final(cont) == (*old(cont) && keeps_going(res)),
{
    step(res, cont)
}

/// Records the outcome of one write attempt, as `do_read` does for reads: an
/// emptied buffer (nothing moved), would-block and failure stop the loop.
pub fn do_write(res: Result<Option<usize>, IoFailure>, cont: &mut bool) -> (r: Result<Option<usize>, IoFailure>)
    ensures
        r == res,
        *final(cont) == (*old(cont) && keeps_going(res)),
{
    step(res, cont)
}

fn step(res: Result<Option<usize>, IoFailure>, cont: &mut bool) -> (r: Result<Option<usize>, IoFailure>)
    ensures
        r == res,
        *final(cont) == (*old(cont) && keeps_going(res)),
{
    match res {
        Ok(Some(n)) => {
            if n == 0 {
                *cont = false;
            }
        },
        Ok(None) => {
            *cont = false;
        },
        Err(_) => {
            *cont = false;
        },
    }
    res
}

/// The smaller of two naturals.
pub open spec fn min_nat(a: nat, b: nat) -> nat {
    if a <= b { a } else { b }
}

/// Drains a readable socket into `ingress`. `avail` holds the bytes the socket
/// has at this readiness event (after them it reports would-block), and each
/// attempt moves at most `chunk` bytes. Returns how many bytes were moved:
/// all that were available, or as many as fitted.
pub fn drain_read(ingress: &mut ByteRing, avail: &[u8], chunk: usize) -> (moved: usize)
    requires
        old(ingress).wf(),
        chunk > 0,
    ensures
        final(ingress).wf(),
        final(ingress).capacity() == old(ingress).capacity(),
        moved == min_nat(avail@.len(), old(ingress).room_spec()),
        final(ingress)@ == old(ingress)@ + avail@.subrange(0, moved as int),
{
    let mut moved: usize = 0;
    let mut cont: bool = true;
    while cont
        invariant
            ingress.wf(),
            ingress.capacity() == old(ingress).capacity(),
            chunk > 0,
            moved <= avail@.len(),
            moved <= old(ingress).room_spec(),
            ingress.room_spec() + moved == old(ingress).room_spec(),
            ingress@ == old(ingress)@ + avail@.subrange(0, moved as int),
            !cont ==> moved == min_nat(avail@.len(), old(ingress).room_spec()),
        decreases avail@.len() - moved, if cont { 1int } else { 0int },
    {
        let res: Result<Option<usize>, IoFailure> = if moved == avail.len() {
            Ok(None)
        } else {
            let left = avail.len() - moved;
            let take: usize = if left <= chunk { left } else { chunk };
            let part = slice_subrange(avail, moved, moved + take);
            let n = ingress.push_slice(part);
            assert(avail@.subrange(0, moved as int) + part@.subrange(0, n as int)
                =~= avail@.subrange(0, (moved + n) as int));
            moved = moved + n;
            Ok(Some(n))
        };
        let _ = do_read(res, &mut cont);
    }
    moved
}

/// Drains `egress` into a writable socket that takes at most `window` bytes
/// before it would block, `chunk` bytes per attempt. Returns the bytes
/// written: the front of the buffer, as much as the window allowed.
pub fn drain_write(egress: &mut ByteRing, window: usize, chunk: usize) -> (sent: Vec<u8>)
    requires
        old(egress).wf(),
        chunk > 0,
    ensures
        final(egress).wf(),
        final(egress).capacity() == old(egress).capacity(),
        sent@.len() == min_nat(old(egress)@.len(), window as nat),
        sent@ == old(egress)@.subrange(0, sent@.len() as int),
        final(egress)@ == old(egress)@.subrange(sent@.len() as int, old(egress)@.len() as int),
{
    let mut sent: Vec<u8> = Vec::new();
    let mut cont: bool = true;
    while cont
        invariant
            egress.wf(),
            egress.capacity() == old(egress).capacity(),
            chunk > 0,
            sent@.len() <= window,
            sent@.len() <= old(egress)@.len(),
            sent@ == old(egress)@.subrange(0, sent@.len() as int),
            egress@ == old(egress)@.subrange(sent@.len() as int, old(egress)@.len() as int),
            !cont ==> sent@.len() == min_nat(old(egress)@.len(), window as nat),
        decreases window - sent@.len(), if cont { 1int } else { 0int },
    {
        let res: Result<Option<usize>, IoFailure> = if sent.len() == window {
            Ok(None)
        } else {
            let left = window - sent.len();
            let queued = egress.len();
            let take: usize = if queued <= left { queued } else { left };
            let take: usize = if take <= chunk { take } else { chunk };
            let mut part = egress.take_front(take);
            sent.append(&mut part);
            assert(sent@ =~= old(egress)@.subrange(0, sent@.len() as int));
            assert(egress@ =~= old(egress)@.subrange(sent@.len() as int, old(egress)@.len() as int));
            Ok(Some(take))
        };
        let _ = do_write(res, &mut cont);
    }
    sent
}

} // verus!
