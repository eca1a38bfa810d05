//! Queues between regions. A value that is sent is copied, cell by cell, into
//! a parcel of its own; the receiver copies it from there into its region. No
//! region ever holds a reference into another.

use std::collections::VecDeque;
use vstd::prelude::*;
use crate::region::{Cell, Region, RegionError, cell_ok};
use crate::value::{Datum, Kind, Value, footprint};

verus! {

/// Why a queue operation failed.
#[derive(Clone, Copy, PartialEq, Eq, Debug, Structural)]
pub enum QueueError {
    /// The handle is not this channel's endpoint of the side in question.
    NotEndpoint,
    /// The value is, or contains, a procedure, a frame or an endpoint, or is
    /// not in the region.
    NotSendable,
    /// The copy would need more bytes than the machine can address.
    TooLarge,
    /// The channel holds as many messages as it was created for.
    Full,
    /// The receiving region has too few bytes left for the message.
    Exhausted,
}

/// What a value is, apart from where it lies: the structure that a queue
/// carries from one region to another.
pub enum Tree {
    Nil,
    Bool(bool),
    U32(u32),
    I64(i64),
    F32(u32),
    Symbol(u32),
    Other(u64),
    VecArr(Kind, Seq<u32>),
    Pair(Box<Tree>, Box<Tree>),
}

/// The structure below the cell at position `i`, or `None` where that cell or
/// one below it cannot be sent.
pub open spec fn tree_of(cells: Seq<Cell>, i: int) -> Option<Tree>
    decreases i,
{
    if 0 <= i < cells.len() {
        match cells[i].datum {
            Datum::Nil => Some(Tree::Nil),
            Datum::Bool(b) => Some(Tree::Bool(b)),
            Datum::U32(x) => Some(Tree::U32(x)),
            Datum::I64(x) => Some(Tree::I64(x)),
            Datum::F32(x) => Some(Tree::F32(x)),
            Datum::Symbol(s) => Some(Tree::Symbol(s)),
            Datum::Other(h) => Some(Tree::Other(h)),
            Datum::VecArr(k, words) => Some(Tree::VecArr(k, words@)),
            Datum::Pair(a, b) => if a.idx < i && b.idx < i {
                match (tree_of(cells, a.idx as int), tree_of(cells, b.idx as int)) {
                    (Some(x), Some(y)) => Some(Tree::Pair(Box::new(x), Box::new(y))),
                    _ => None,
                }
            } else {
                None
            },
            _ => None,
        }
    } else {
        None
    }
}

/// Bytes that a copy of the structure occupies.
pub open spec fn tree_bytes(t: Tree) -> int
    decreases t,
{
    match t {
        Tree::Nil => 8,
        Tree::Bool(_) => 8,
        Tree::U32(_) => 12,
        Tree::I64(_) => 16,
        Tree::F32(_) => 12,
        Tree::Symbol(_) => 12,
        Tree::Other(_) => 16,
        Tree::VecArr(_, words) => 8 + 4 * (words.len() as int),
        Tree::Pair(a, b) => 24 + tree_bytes(*a) + tree_bytes(*b),
    }
}

/// `b` holds the cells of `a`, unchanged, and perhaps more after them.
pub open spec fn extends(a: Seq<Cell>, b: Seq<Cell>) -> bool {
    a.len() <= b.len() && forall|i: int| 0 <= i < a.len() ==> a[i] == b[i]
}

/// The structure below a cell depends on the cells up to it only.
pub proof fn lemma_tree_ignores_younger(a: Seq<Cell>, b: Seq<Cell>, i: int)
    requires
        0 <= i < a.len(),
        i < b.len(),
        forall|j: int| 0 <= j <= i ==> a[j] == b[j],
    ensures
        tree_of(a, i) == tree_of(b, i),
    decreases i,
{
    match a[i].datum {
        Datum::Pair(x, y) => {
            if x.idx < i && y.idx < i {
                lemma_tree_ignores_younger(a, b, x.idx as int);
                lemma_tree_ignores_younger(a, b, y.idx as int);
            }
        },
        _ => {},
    }
}

/// Every structure occupies at least its header.
pub proof fn lemma_tree_bytes_positive(t: Tree)
    ensures
        tree_bytes(t) >= 8,
    decreases t,
{
    match t {
        Tree::Pair(a, b) => {
            lemma_tree_bytes_positive(*a);
            lemma_tree_bytes_positive(*b);
        },
        _ => {},
    }
}

/// A copy of the words of an array.
fn copy_words(words: &Vec<u32>) -> (out: Vec<u32>)
    ensures
        out@ == words@,
{
    let mut out: Vec<u32> = Vec::new();
    let n: usize = words.len();
    let mut i: usize = 0;
    while i < n
        invariant
            n == words@.len(),
            i <= n,
            out@ == words@.subrange(0, i as int),
        decreases n - i,
    {
        out.push(words[i]);
        proof {
            assert(out@ =~= words@.subrange(0, i + 1));
        }
        i = i + 1;
    }
    proof {
        assert(out@ =~= words@);
    }
    out
}

/// The structure of a list: the structures `heads`, in order, before `end`.
pub open spec fn spine(heads: Seq<Tree>, end: Tree) -> Tree
    decreases heads.len(),
{
    if heads.len() == 0 {
        end
    } else {
        Tree::Pair(Box::new(heads[0]), Box::new(spine(heads.drop_first(), end)))
    }
}

/// A head more at the end of a spine is a pair more before its end.
proof fn lemma_spine_push(heads: Seq<Tree>, head: Tree, end: Tree)
    ensures
        spine(heads.push(head), end) == spine(heads, Tree::Pair(Box::new(head), Box::new(end))),
    decreases heads.len(),
{
    if heads.len() == 0 {
        assert(heads.push(head).drop_first() =~= Seq::<Tree>::empty());
        assert(heads.push(head)[0] == head);
        assert(spine(heads.push(head).drop_first(), end) == end);
    } else {
        assert(heads.push(head).drop_first() =~= heads.drop_first().push(head));
        assert(heads.push(head)[0] == heads[0]);
        lemma_spine_push(heads.drop_first(), head, end);
    }
}

/// The bytes of one cell that is copied as it is, or `None` for a cell that
/// is a pair or cannot be sent.
fn leaf_bytes(region: &Region, v: Value) -> (n: Option<usize>)
    requires
        region.wf(),
        region.holds(v),
    ensures
        n is Some <==> tree_of(region.cells@, v.idx as int) is Some && !(region.datum(v) is Pair),
        n is Some ==> n->0 == tree_bytes(tree_of(region.cells@, v.idx as int)->0),
{
    proof {
        assert(region.cells@[v.idx as int].size == footprint(region.cells@[v.idx as int].datum));
    }
    match &region.cells[v.idx].datum {
        Datum::Nil => Some(region.cells[v.idx].size),
        Datum::Bool(_) => Some(region.cells[v.idx].size),
        Datum::U32(_) => Some(region.cells[v.idx].size),
        Datum::I64(_) => Some(region.cells[v.idx].size),
        Datum::F32(_) => Some(region.cells[v.idx].size),
        Datum::Symbol(_) => Some(region.cells[v.idx].size),
        Datum::Other(_) => Some(region.cells[v.idx].size),
        Datum::VecArr(_, _) => Some(region.cells[v.idx].size),
        _ => None,
    }
}

/// The bytes that a copy of `v` would occupy. Fails with `NotSendable` where
/// the value cannot be sent, else with `TooLarge` where the number does not
/// fit the machine's word.
///
/// A list is walked along its tails; only its heads are measured by calls of
/// their own.
pub fn measure(region: &Region, v: Value) -> (res: Result<usize, QueueError>)
    requires
        region.wf(),
    ensures
        match res {
            Ok(n) => tree_of(region.cells@, v.idx as int) is Some && n == tree_bytes(
                tree_of(region.cells@, v.idx as int)->0,
            ),
            Err(e) => {
                &&& e == QueueError::NotSendable <==> tree_of(region.cells@, v.idx as int) is None
                &&& e == QueueError::TooLarge <==> tree_of(region.cells@, v.idx as int) is Some
                    && tree_bytes(tree_of(region.cells@, v.idx as int)->0) > usize::MAX
                &&& e == QueueError::NotSendable || e == QueueError::TooLarge
            },
        },
    decreases v.idx,
{
    if v.idx >= region.cells.len() {
        return Err(QueueError::NotSendable);
    }
    let mut cur: Value = v;
    let mut sum: Option<usize> = Some(0);
    let ghost mut total: int = 0;
    loop
        invariant
            region.wf(),
            region.holds(cur),
            cur.idx <= v.idx,
            total >= 0,
            sum is Some ==> sum->0 == total,
            sum is None ==> total > usize::MAX,
            tree_of(region.cells@, v.idx as int) is Some <==> tree_of(
                region.cells@,
                cur.idx as int,
            ) is Some,
            tree_of(region.cells@, v.idx as int) is Some ==> tree_bytes(
                tree_of(region.cells@, v.idx as int)->0,
            ) == total + tree_bytes(tree_of(region.cells@, cur.idx as int)->0),
        ensures
            !(region.datum(cur) is Pair),
        decreases cur.idx,
    {
        proof {
            assert(cell_ok(region.cells@, cur.idx as int));
        }
        match &region.cells[cur.idx].datum {
            Datum::Pair(a, b) => {
                let head = measure(region, *a);
                proof {
                    if tree_of(region.cells@, a.idx as int) is Some {
                        lemma_tree_bytes_positive(tree_of(region.cells@, a.idx as int)->0);
                    }
                }
                match head {
                    Ok(n) => {
                        proof {
                            total = total + n + 24;
                        }
                        sum = match sum {
                            Some(t) => match t.checked_add(n) {
                                Some(u) => u.checked_add(24),
                                None => None,
                            },
                            None => None,
                        };
                    },
                    Err(QueueError::NotSendable) => {
                        return Err(QueueError::NotSendable);
                    },
                    Err(_) => {
                        proof {
                            total = total + tree_bytes(tree_of(region.cells@, a.idx as int)->0)
                                + 24;
                        }
                        sum = None;
                    },
                }
                cur = *b;
            },
            _ => {
                break ;
            },
        }
    }
    match leaf_bytes(region, cur) {
        None => Err(QueueError::NotSendable),
        Some(n) => {
            proof {
                lemma_tree_bytes_positive(tree_of(region.cells@, cur.idx as int)->0);
            }
            match sum {
                Some(t) => match t.checked_add(n) {
                    Some(u) => Ok(u),
                    None => Err(QueueError::TooLarge),
                },
                None => Err(QueueError::TooLarge),
            }
        },
    }
}

/// Copies the structure below `v` from `src` into `dst`, the root last. The
/// heads of a list are copied first, one after the other, then its end, then
/// the pairs that hold them, the last pair first.
fn copy_value(src: &Region, v: Value, dst: &mut Region) -> (w: Value)
    requires
        src.wf(),
        old(dst).wf(),
        tree_of(src.cells@, v.idx as int) is Some,
        old(dst).cursor + tree_bytes(tree_of(src.cells@, v.idx as int)->0) <= old(dst).capacity,
    ensures
        final(dst).wf(),
        final(dst).capacity == old(dst).capacity,
        final(dst).cursor == old(dst).cursor + tree_bytes(tree_of(src.cells@, v.idx as int)->0),
        extends(old(dst).cells@, final(dst).cells@),
        final(dst).holds(w),
        w.idx + 1 == final(dst).cells@.len(),
        w.idx >= old(dst).cells@.len(),
        tree_of(final(dst).cells@, w.idx as int) == tree_of(src.cells@, v.idx as int),
    decreases v.idx,
{
    let mut heads: Vec<Value> = Vec::new();
    let mut cur: Value = v;
    let ghost whole = tree_of(src.cells@, v.idx as int)->0;
    let ghost mut trees: Seq<Tree> = Seq::empty();
    loop
        invariant
            src.wf(),
            dst.wf(),
            dst.capacity == old(dst).capacity,
            extends(old(dst).cells@, dst.cells@),
            cur.idx <= v.idx,
            tree_of(src.cells@, cur.idx as int) is Some,
            whole == spine(trees, tree_of(src.cells@, cur.idx as int)->0),
            heads@.len() == trees.len(),
            forall|k: int|
                0 <= k < heads@.len() ==> (#[trigger] heads@[k]).idx < dst.cells@.len() && tree_of(
                    dst.cells@,
                    heads@[k].idx as int,
                ) == Some(trees[k]),
            old(dst).cursor + tree_bytes(whole) <= old(dst).capacity,
            dst.cursor + 24 * trees.len() + tree_bytes(tree_of(src.cells@, cur.idx as int)->0)
                == old(dst).cursor + tree_bytes(whole),
        ensures
            !(src.datum(cur) is Pair),
        decreases cur.idx,
    {
        proof {
            assert(cell_ok(src.cells@, cur.idx as int));
        }
        match &src.cells[cur.idx].datum {
            Datum::Pair(a, b) => {
                let ghost before = dst.cells@;
                let ghost head = tree_of(src.cells@, a.idx as int)->0;
                let ghost rest = tree_of(src.cells@, b.idx as int)->0;
                proof {
                    lemma_tree_bytes_positive(rest);
                    lemma_spine_push(trees, head, rest);
                }
                let wa = copy_value(src, *a, dst);
                proof {
                    assert forall|k: int| 0 <= k < heads@.len() implies (#[trigger] heads@[k]).idx
                        < dst.cells@.len() && tree_of(dst.cells@, heads@[k].idx as int) == Some(
                        trees[k],
                    ) by {
                        lemma_tree_ignores_younger(before, dst.cells@, heads@[k].idx as int);
                    }
                    trees = trees.push(head);
                }
                heads.push(wa);
                cur = *b;
            },
            _ => {
                break ;
            },
        }
    }
    let datum: Datum = match &src.cells[cur.idx].datum {
        Datum::Bool(b) => Datum::Bool(*b),
        Datum::U32(x) => Datum::U32(*x),
        Datum::I64(x) => Datum::I64(*x),
        Datum::F32(x) => Datum::F32(*x),
        Datum::Symbol(s) => Datum::Symbol(*s),
        Datum::Other(h) => Datum::Other(*h),
        Datum::VecArr(k, words) => Datum::VecArr(*k, copy_words(words)),
        _ => Datum::Nil,
    };
    let ghost end = tree_of(src.cells@, cur.idx as int)->0;
    let ghost before = dst.cells@;
    let mut tail: Value = match dst.allocate(datum) {
        Ok(w) => w,
        Err(_) => {
            proof {
                assert(false);
            }
            v
        },
    };
    let n: usize = heads.len();
    let mut j: usize = n;
    proof {
        assert(trees.skip(n as int) =~= Seq::<Tree>::empty());
        assert forall|k: int| 0 <= k < heads@.len() implies (#[trigger] heads@[k]).idx
            < dst.cells@.len() && tree_of(dst.cells@, heads@[k].idx as int) == Some(trees[k]) by {
            lemma_tree_ignores_younger(before, dst.cells@, heads@[k].idx as int);
        }
    }
    while j > 0
        invariant
            dst.wf(),
            dst.capacity == old(dst).capacity,
            extends(old(dst).cells@, dst.cells@),
            n == heads@.len(),
            n == trees.len(),
            j <= n,
            whole == spine(trees, end),
            forall|k: int|
                0 <= k < heads@.len() ==> (#[trigger] heads@[k]).idx < dst.cells@.len() && tree_of(
                    dst.cells@,
                    heads@[k].idx as int,
                ) == Some(trees[k]),
            dst.holds(tail),
            tail.idx + 1 == dst.cells@.len(),
            tail.idx >= old(dst).cells@.len(),
            tree_of(dst.cells@, tail.idx as int) == Some(spine(trees.skip(j as int), end)),
            old(dst).cursor + tree_bytes(whole) <= old(dst).capacity,
            dst.cursor + 24 * j == old(dst).cursor + tree_bytes(whole),
        decreases j,
    {
        j = j - 1;
        let head: Value = heads[j];
        let ghost before = dst.cells@;
        let next: Value = match dst.allocate(Datum::Pair(head, tail)) {
            Ok(w) => w,
            Err(_) => {
                proof {
                    assert(false);
                }
                v
            },
        };
        proof {
            assert forall|k: int| 0 <= k < heads@.len() implies (#[trigger] heads@[k]).idx
                < dst.cells@.len() && tree_of(dst.cells@, heads@[k].idx as int) == Some(
                trees[k],
            ) by {
                lemma_tree_ignores_younger(before, dst.cells@, heads@[k].idx as int);
            }
            lemma_tree_ignores_younger(before, dst.cells@, tail.idx as int);
            assert(trees.skip(j as int).drop_first() =~= trees.skip(j + 1));
            assert(trees.skip(j as int)[0] == trees[j as int]);
        }
        tail = next;
    }
    proof {
        assert(trees.skip(0) =~= trees);
    }
    tail
}

/// Copies the structure below `v` from `src` into `dst`; the copy's root is
/// the last cell of `dst` afterwards.
///
/// In order, fails with `NotSendable` where the value is, or contains, what
/// cannot be copied, with `TooLarge` where the copy's bytes cannot be counted,
/// and with `Exhausted` where `dst` has too few bytes left; a failed call
/// changes nothing.
pub fn transfer(src: &Region, v: Value, dst: &mut Region) -> (res: Result<Value, QueueError>)
    requires
        src.wf(),
        old(dst).wf(),
    ensures
        final(dst).wf(),
        final(dst).capacity == old(dst).capacity,
        match res {
            Ok(w) => {
                &&& tree_of(src.cells@, v.idx as int) is Some
                &&& final(dst).cursor == old(dst).cursor + tree_bytes(
                    tree_of(src.cells@, v.idx as int)->0,
                )
                &&& extends(old(dst).cells@, final(dst).cells@)
                &&& w.idx + 1 == final(dst).cells@.len()
                &&& w.idx >= old(dst).cells@.len()
                &&& tree_of(final(dst).cells@, w.idx as int) == tree_of(src.cells@, v.idx as int)
            },
            Err(e) => {
                &&& *final(dst) == *old(dst)
                &&& e == QueueError::NotSendable <==> tree_of(src.cells@, v.idx as int) is None
                &&& e == QueueError::TooLarge <==> tree_of(src.cells@, v.idx as int) is Some
                    && tree_bytes(tree_of(src.cells@, v.idx as int)->0) > usize::MAX
                &&& e == QueueError::Exhausted <==> tree_of(src.cells@, v.idx as int) is Some
                    && tree_bytes(tree_of(src.cells@, v.idx as int)->0) <= usize::MAX && old(
                    dst,
                ).cursor + tree_bytes(tree_of(src.cells@, v.idx as int)->0) > old(dst).capacity
                &&& e == QueueError::NotSendable || e == QueueError::TooLarge || e
                    == QueueError::Exhausted
            },
        },
{
    let bytes: usize = match measure(src, v) {
        Ok(n) => n,
        Err(e) => {
            return Err(e);
        },
    };
    if bytes > dst.capacity - dst.cursor {
        return Err(QueueError::Exhausted);
    }
    Ok(copy_value(src, v, dst))
}

/// One message on its way: a region that holds the copy and nothing else, and
/// the copy's root.
#[derive(Debug)]
pub struct Parcel {
    pub store: Region,
    pub root: Value,
}

impl Parcel {
    /// What the parcel carries.
    pub open spec fn tree(&self) -> Tree {
        tree_of(self.store.cells@, self.root.idx as int)->0
    }

    /// The parcel's invariant: it carries a structure, in exactly the bytes
    /// that the structure needs.
    pub open spec fn wf(&self) -> bool {
        &&& self.store.wf()
        &&& tree_of(self.store.cells@, self.root.idx as int) is Some
        &&& self.store.cursor == tree_bytes(self.tree())
    }
}

/// A bounded queue with one sender and one receiver. The endpoints are values
/// in the two regions that the channel connects; they carry its number.
#[derive(Debug)]
pub struct Channel {
    pub id: u32,
    pub capacity: usize,
    pub parcels: VecDeque<Parcel>,
}

impl View for Channel {
    type V = Seq<Tree>;

    /// The messages that wait, oldest first.
    open spec fn view(&self) -> Seq<Tree> {
        self.parcels@.map_values(|p: Parcel| p.tree())
    }
}

/// Whether `endpoint` is the sending end of channel `id` in `cells`.
pub open spec fn is_sender(cells: Seq<Cell>, endpoint: Value, id: u32) -> bool {
    endpoint.idx < cells.len() && cells[endpoint.idx as int].datum == Datum::Sender(id)
}

/// Whether `endpoint` is the receiving end of channel `id` in `cells`.
pub open spec fn is_receiver(cells: Seq<Cell>, endpoint: Value, id: u32) -> bool {
    endpoint.idx < cells.len() && cells[endpoint.idx as int].datum == Datum::Receiver(id)
}

impl Channel {
    /// The channel's invariant: every waiting parcel is in order, and there
    /// are no more of them than the channel was created for.
    pub open spec fn wf(&self) -> bool {
        &&& self.parcels@.len() <= self.capacity
        &&& forall|i: int| 0 <= i < self.parcels@.len() ==> (#[trigger] self.parcels@[i]).wf()
    }

    /// Creates the channel with number `id` for at most `capacity` waiting
    /// messages, and allocates its sending end in `tx_region` and its
    /// receiving end in `rx_region`. Fails with `Exhausted`, changing nothing,
    /// exactly where one of the regions has fewer than 16 bytes left.
    pub fn create(id: u32, capacity: usize, tx_region: &mut Region, rx_region: &mut Region) -> (res:
        Result<(Channel, Value, Value), RegionError>)
        requires
            old(tx_region).wf(),
            old(rx_region).wf(),
        ensures
            final(tx_region).wf(),
            final(rx_region).wf(),
            final(tx_region).capacity == old(tx_region).capacity,
            final(rx_region).capacity == old(rx_region).capacity,
            match res {
                Ok((ch, tx, rx)) => {
                    &&& old(tx_region).cursor + 16 <= old(tx_region).capacity
                    &&& old(rx_region).cursor + 16 <= old(rx_region).capacity
                    &&& ch.wf()
                    &&& ch.id == id
                    &&& ch.capacity == capacity
                    &&& ch@ == Seq::<Tree>::empty()
                    &&& tx.idx == old(tx_region).cells@.len()
                    &&& rx.idx == old(rx_region).cells@.len()
                    &&& final(tx_region).cells@ == old(tx_region).cells@.push(
                        (Cell {
                            offset: old(tx_region).cursor,
                            size: 16,
                            datum: Datum::Sender(id),
                        }),
                    )
                    &&& final(rx_region).cells@ == old(rx_region).cells@.push(
                        (Cell {
                            offset: old(rx_region).cursor,
                            size: 16,
                            datum: Datum::Receiver(id),
                        }),
                    )
                    &&& final(tx_region).cursor == old(tx_region).cursor + 16
                    &&& final(rx_region).cursor == old(rx_region).cursor + 16
                },
                Err(e) => {
                    &&& e == RegionError::Exhausted
                    &&& *final(tx_region) == *old(tx_region)
                    &&& *final(rx_region) == *old(rx_region)
                    &&& old(tx_region).cursor + 16 > old(tx_region).capacity || old(
                        rx_region,
                    ).cursor + 16 > old(rx_region).capacity
                },
            },
    {
        if tx_region.capacity - tx_region.cursor < 16 || rx_region.capacity - rx_region.cursor
            < 16 {
            return Err(RegionError::Exhausted);
        }
        let tx = match tx_region.allocate(Datum::Sender(id)) {
            Ok(v) => v,
            Err(e) => {
                proof {
                    assert(false);
                }
                return Err(e);
            },
        };
        let rx = match rx_region.allocate(Datum::Receiver(id)) {
            Ok(v) => v,
            Err(e) => {
                proof {
                    assert(false);
                }
                return Err(e);
            },
        };
        let ch = Channel { id, capacity, parcels: VecDeque::new() };
        proof {
            assert(ch@ =~= Seq::<Tree>::empty());
        }
        Ok((ch, tx, rx))
    }

    /// Number of messages that wait.
    pub fn len(&self) -> (n: usize)
        ensures
            n == self@.len(),
    {
        self.parcels.len()
    }

    /// Appends a copy of `v`, taken from `region` as it is now, to the queue.
    ///
    /// In order, fails with `NotEndpoint` where `endpoint` is not this
    /// channel's sending end in `region`, with `NotSendable` or `TooLarge`
    /// where the value cannot be copied, and with `Full` where the channel has
    /// no room; a failed call changes nothing.
    pub fn send(&mut self, region: &Region, endpoint: Value, v: Value) -> (res: Result<
        (),
        QueueError,
    >)
        requires
            old(self).wf(),
            region.wf(),
        ensures
            final(self).wf(),
            final(self).id == old(self).id,
            final(self).capacity == old(self).capacity,
            match res {
                Ok(_) => {
                    &&& is_sender(region.cells@, endpoint, old(self).id)
                    &&& tree_of(region.cells@, v.idx as int) is Some
                    &&& old(self)@.len() < old(self).capacity
                    &&& final(self)@ == old(self)@.push(tree_of(region.cells@, v.idx as int)->0)
                },
                Err(e) => {
                    &&& final(self)@ == old(self)@
                    &&& e == QueueError::NotEndpoint <==> !is_sender(
                        region.cells@,
                        endpoint,
                        old(self).id,
                    )
                    &&& e == QueueError::NotSendable <==> is_sender(
                        region.cells@,
                        endpoint,
                        old(self).id,
                    ) && tree_of(region.cells@, v.idx as int) is None
                    &&& e == QueueError::TooLarge <==> is_sender(
                        region.cells@,
                        endpoint,
                        old(self).id,
                    ) && tree_of(region.cells@, v.idx as int) is Some && tree_bytes(
                        tree_of(region.cells@, v.idx as int)->0,
                    ) > usize::MAX
                    &&& e == QueueError::Full <==> is_sender(region.cells@, endpoint, old(self).id)
                        && tree_of(region.cells@, v.idx as int) is Some && tree_bytes(
                        tree_of(region.cells@, v.idx as int)->0,
                    ) <= usize::MAX && old(self)@.len() >= old(self).capacity
                    &&& e == QueueError::NotEndpoint || e == QueueError::NotSendable || e
                        == QueueError::TooLarge || e == QueueError::Full
                },
            },
    {
        if !endpoint_is(region, endpoint, true, self.id) {
            return Err(QueueError::NotEndpoint);
        }
        let bytes: usize = match measure(region, v) {
            Ok(n) => n,
            Err(e) => {
                return Err(e);
            },
        };
        if self.parcels.len() >= self.capacity {
            return Err(QueueError::Full);
        }
        let mut store = Region::acquire(bytes);
        let root = copy_value(region, v, &mut store);
        let ghost before = self.parcels@;
        let parcel = Parcel { store, root };
        self.parcels.push_back(parcel);
        proof {
            assert(self.parcels@ == before.push(parcel));
            assert forall|i: int| 0 <= i < self.parcels@.len() implies (
            #[trigger] self.parcels@[i]).wf() by {
                if i < before.len() {
                    assert(before[i].wf());
                }
            }
            assert(self@ =~= old(self)@.push(tree_of(region.cells@, v.idx as int)->0));
        }
        Ok(())
    }

    /// Takes the oldest message, if there is one, and copies it into
    /// `region`. Never waits: `Ok(None)` means that the queue is empty.
    ///
    /// In order, fails with `NotEndpoint` where `endpoint` is not this
    /// channel's receiving end in `region`, and with `Exhausted` where the
    /// region has too few bytes left for the oldest message; a failed call
    /// changes nothing, and the message stays.
    pub fn try_recv(&mut self, region: &mut Region, endpoint: Value) -> (res: Result<
        Option<Value>,
        QueueError,
    >)
        requires
            old(self).wf(),
            old(region).wf(),
        ensures
            final(self).wf(),
            final(region).wf(),
            final(self).id == old(self).id,
            final(self).capacity == old(self).capacity,
            final(region).capacity == old(region).capacity,
            match res {
                Ok(Some(w)) => {
                    &&& is_receiver(old(region).cells@, endpoint, old(self).id)
                    &&& old(self)@.len() > 0
                    &&& final(self)@ == old(self)@.drop_first()
                    &&& final(region).holds(w)
                    &&& tree_of(final(region).cells@, w.idx as int) == Some(old(self)@[0])
                    &&& extends(old(region).cells@, final(region).cells@)
                    &&& final(region).cursor == old(region).cursor + tree_bytes(old(self)@[0])
                },
                Ok(None) => {
                    &&& is_receiver(old(region).cells@, endpoint, old(self).id)
                    &&& old(self)@.len() == 0
                    &&& final(self)@ == old(self)@
                    &&& *final(region) == *old(region)
                },
                Err(e) => {
                    &&& final(self)@ == old(self)@
                    &&& *final(region) == *old(region)
                    &&& e == QueueError::NotEndpoint <==> !is_receiver(
                        old(region).cells@,
                        endpoint,
                        old(self).id,
                    )
                    &&& e == QueueError::Exhausted <==> is_receiver(
                        old(region).cells@,
                        endpoint,
                        old(self).id,
                    ) && old(self)@.len() > 0 && old(region).cursor + tree_bytes(old(self)@[0])
                        > old(region).capacity
                    &&& e == QueueError::NotEndpoint || e == QueueError::Exhausted
                },
            },
    {
        if !endpoint_is(region, endpoint, false, self.id) {
            return Err(QueueError::NotEndpoint);
        }
        if self.parcels.len() == 0 {
            return Ok(None);
        }
        proof {
            assert(self.parcels@[0].wf());
        }
        if self.parcels[0].store.cursor > region.capacity - region.cursor {
            return Err(QueueError::Exhausted);
        }
        let ghost before = self.parcels@;
        match self.parcels.pop_front() {
            Some(parcel) => {
                let w = copy_value(&parcel.store, parcel.root, region);
                proof {
                    assert forall|i: int| 0 <= i < self.parcels@.len() implies (
                    #[trigger] self.parcels@[i]).wf() by {
                        assert(before[i + 1].wf());
                    }
                    assert(self@ =~= old(self)@.drop_first());
                }
                Ok(Some(w))
            },
            None => Ok(None),
        }
    }
}

/// Whether `endpoint` is, in `region`, the end of channel `id` on the sending
/// side (`sending`) or on the receiving side.
fn endpoint_is(region: &Region, endpoint: Value, sending: bool, id: u32) -> (r: bool)
    ensures
        r == if sending {
            is_sender(region.cells@, endpoint, id)
        } else {
            is_receiver(region.cells@, endpoint, id)
        },
{
    if endpoint.idx >= region.cells.len() {
        return false;
    }
    match &region.cells[endpoint.idx].datum {
        Datum::Sender(n) => sending && *n == id,
        Datum::Receiver(n) => !sending && *n == id,
        _ => false,
    }
}

/// Messages leave a queue in the order in which they entered it: after the
/// messages `sent` have been appended to the waiting ones, the receive that
/// follows `k` others yields the message at position `k` of all of them.
pub proof fn lemma_fifo(waiting: Seq<Tree>, sent: Seq<Tree>, k: int)
    requires
        0 <= k < waiting.len() + sent.len(),
    ensures
        (waiting + sent).skip(k).len() > 0,
        (waiting + sent).skip(k)[0] == if k < waiting.len() {
            waiting[k]
        } else {
            sent[k - waiting.len()]
        },
        (waiting + sent).skip(k).drop_first() == (waiting + sent).skip(k + 1),
{
    assert((waiting + sent).skip(k).drop_first() =~= (waiting + sent).skip(k + 1));
}

} // verus!
