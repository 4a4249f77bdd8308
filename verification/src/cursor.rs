//! Forward-only pull cursors over a stream of items.
//!
//! A sampler consumes its input through the [`StreamCursor`] capability:
//! `next` fetches the next element, `advance` discards a given number of
//! elements and fetches the one after them.  Each element is visited at most
//! once across a whole sampling call.

use vstd::prelude::*;

verus! {

broadcast use vstd::seq_lib::group_seq_properties;

/// A forward-only, single-consumption sequence of elements.
///
/// The abstract state is `remaining()`: the elements not yet consumed, in
/// arrival order.  Both operations only ever shorten it from the front.
pub trait StreamCursor<T>: Sized {
    /// The elements not yet consumed, in arrival order.
    spec fn remaining(&self) -> Seq<T>;

    /// The number of elements still to come fits in a machine word.
    proof fn remaining_fits(&self)
        ensures
            self.remaining().len() <= usize::MAX,
    ;

    /// Fetch the next element, or report exhaustion.
    fn next(&mut self) -> (r: Option<T>)
        ensures
            old(self).remaining().len() == 0 ==> r is None && final(self).remaining()
                == old(self).remaining(),
            old(self).remaining().len() > 0 ==> r == Some(old(self).remaining()[0])
                && final(self).remaining() == old(self).remaining().drop_first(),
    ;

    /// Discard `n` elements without materializing them, then fetch the
    /// following one, or report exhaustion if fewer than `n + 1` remain.
    fn advance(&mut self, n: usize) -> (r: Option<T>)
        ensures
            old(self).remaining().len() > n ==> r == Some(old(self).remaining()[n as int])
                && final(self).remaining() == old(self).remaining().skip(n as int + 1),
            old(self).remaining().len() <= n ==> r is None && final(self).remaining().len() == 0,
    ;
}

/// Consuming one element of the suffix at `k` leaves the suffix at `k + 1`.
pub(crate) proof fn lemma_skip_one<T>(s: Seq<T>, k: int)
    requires
        0 <= k < s.len(),
    ensures
        s.skip(k).drop_first() == s.skip(k + 1),
        s.skip(k)[0] == s[k],
{
    assert forall|i: int| 0 <= i < s.skip(k).drop_first().len() implies s.skip(k).drop_first()[i]
        == s.skip(k + 1)[i] by {
        assert(s.skip(k)[i + 1] == s[k + i + 1]);
        assert(s.skip(k + 1)[i] == s[k + 1 + i]);
    }
    assert(s.skip(k).drop_first() =~= s.skip(k + 1));
    assert(s.skip(k)[0] == s[k + 0]);
}

/// Two suffix steps compose into one.
pub(crate) proof fn lemma_skip_skip<T>(s: Seq<T>, a: int, b: int)
    requires
        0 <= a,
        0 <= b,
        a + b <= s.len(),
    ensures
        s.skip(a).skip(b) == s.skip(a + b),
{
    assert forall|i: int| 0 <= i < s.skip(a).skip(b).len() implies s.skip(a).skip(b)[i] == s.skip(
        a + b,
    )[i] by {
        assert(s.skip(a)[b + i] == s[a + b + i]);
        assert(s.skip(a + b)[i] == s[a + b + i]);
    }
    assert(s.skip(a).skip(b) =~= s.skip(a + b));
}

/// A cursor over an in-memory vector, yielding its elements in order.
pub struct VecCursor<T> {
    /// The remaining elements, stored in reverse so that the next element to
    /// yield sits at the end and can be moved out by `pop`.
    stack: Vec<T>,
}

impl<T> VecCursor<T> {
    /// Wrap a vector; the cursor yields its elements front to back.
    pub fn new(items: Vec<T>) -> (c: Self)
        ensures
            c.remaining() == items@,
    {
        let ghost all = items@;
        let mut items = items;
        let mut stack: Vec<T> = Vec::new();
        loop
            invariant
                items@ + stack@.reverse() == all,
            ensures
                items@.len() == 0,
                items@ + stack@.reverse() == all,
            decreases items@.len(),
        {
            match items.pop() {
                Some(x) => {
                    proof {
                        let ghost before = stack@;
                        assert(before.push(x).reverse() =~= seq![x] + before.reverse());
                    }
                    stack.push(x);
                }
                None => {
                    break;
                }
            }
        }
        let c = VecCursor { stack };
        proof {
            assert(all == items@ + stack@.reverse());
            assert(c.remaining() =~= all);
        }
        c
    }
}

impl<T> StreamCursor<T> for VecCursor<T> {
    closed spec fn remaining(&self) -> Seq<T> {
        self.stack@.reverse()
    }

    proof fn remaining_fits(&self) {
        broadcast use vstd::std_specs::vec::axiom_spec_len;

        assert(vstd::std_specs::vec::spec_vec_len(&self.stack) == self.stack@.len());
    }

    fn next(&mut self) -> (r: Option<T>) {
        let r = self.stack.pop();
        proof {
            let ghost before = old(self).stack@;
            if before.len() > 0 {
                assert(before.drop_last().reverse() =~= before.reverse().drop_first());
            }
        }
        r
    }

    fn advance(&mut self, n: usize) -> (r: Option<T>) {
        let mut i: usize = 0;
        while i < n
            invariant
                i <= n,
                old(self).remaining().len() >= i ==> self.remaining() == old(
                    self,
                ).remaining().skip(i as int),
                old(self).remaining().len() < i ==> self.remaining().len() == 0,
            decreases n - i,
        {
            if self.stack.len() == 0 {
                return None;
            }
            proof {
                let ghost before = self.stack@;
                assert(before.drop_last().reverse() =~= before.reverse().drop_first());
            }
            self.stack.pop();
            i = i + 1;
            proof {
                if old(self).remaining().len() >= i {
                    assert(old(self).remaining().skip(i as int - 1).drop_first() =~= old(
                        self,
                    ).remaining().skip(i as int));
                }
            }
        }
        let r = self.next();
        proof {
            if old(self).remaining().len() > n {
                assert(old(self).remaining().skip(n as int).drop_first() =~= old(
                    self,
                ).remaining().skip(n as int + 1));
                assert(old(self).remaining().skip(n as int)[0] == old(self).remaining()[n as int]);
            }
        }
        r
    }
}

} // verus!
