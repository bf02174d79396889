//! What holds of a join in whatever order the steps of its poll and of its wakers come.
use core::task::Waker;
use vstd::prelude::*;
use crate::erased::{EntryPtr, Links};
use crate::join::initial_links;
use crate::poll::Polling;
use crate::schedule::{Schedule, Stage};
use crate::task::serves;

verus! {

/// How the scheduled entries hang together.
///
/// They form chains. One of them is the list itself; each of the others begins with an entry that
/// an undertaking has claimed but not linked to anything yet.
struct Shape {
    /// The chain of each scheduled entry: its first entry, or `Null` for the list.
    chain: Map<EntryPtr, EntryPtr>,
    /// The position of each scheduled entry in its chain.
    pos: Map<EntryPtr, int>,
    /// The position of the first entry of the list.
    head: int,
    /// When each entry was claimed.
    time: Map<EntryPtr, int>,
    /// Not less than any of these.
    now: int,
    /// The undertaking that claimed each entry.
    owner: Map<EntryPtr, int>,
}

/// Whether the undertaking has claimed its entry and not made it the last one yet.
pub open spec fn claiming(schedule: Schedule) -> bool {
    schedule.stage is FindLast || schedule.stage is Link || schedule.stage is Publish
}

/// Whether the undertaking has claimed its entry and not linked it yet.
spec fn seeking(schedule: Schedule) -> bool {
    schedule.stage is FindLast || schedule.stage is Link
}

impl Links {
    /// Whether the entry at `x` is scheduled.
    pub open spec fn marked(self, x: EntryPtr) -> bool {
        self.is_entry(x) && self.next[x] != EntryPtr::Null
    }
}

impl Shape {
    /// Whether the entry at `x` stands in the list.
    spec fn listed(self, links: Links, x: EntryPtr) -> bool {
        links.marked(x) && self.chain[x] == EntryPtr::Null
    }

    /// Whether the undertaking that claimed `x` has yet to make it the last entry.
    spec fn unsettled(self, links: Links, x: EntryPtr) -> bool {
        links.marked(x) && (self.chain[x] != EntryPtr::Null || self.pos[x] > self.pos[links.last])
    }

    /// Links lead from entry to entry.
    spec fn links_ok(self, links: Links) -> bool {
        &&& links.count <= usize::MAX
        &&& forall|x: EntryPtr|
            links.is_entry(x) && #[trigger] links.next[x] != EntryPtr::Null && links.next[x]
                != links.end() ==> links.is_entry(links.next[x])
        &&& forall|x: EntryPtr, y: EntryPtr|
            #![trigger links.next[x], links.next[y]]
            links.is_entry(x) && links.next[x] == y && links.is_entry(y) ==> links.next[y]
                != EntryPtr::Null
        &&& forall|x: EntryPtr, y: EntryPtr|
            #![trigger links.next[x], self.pos[y]]
            #![trigger links.next[x], self.chain[y]]
            links.is_entry(x) && links.next[x] == y && links.is_entry(y) ==> {
                &&& self.chain[y] == self.chain[x]
                &&& self.pos[y] == self.pos[x] + 1
            }
        &&& forall|x: EntryPtr, y: EntryPtr|
            #![trigger self.pos[x], self.pos[y]]
            links.marked(x) && links.marked(y) && x != y && self.chain[x] == self.chain[y]
                ==> self.pos[x] != self.pos[y]
        &&& forall|x: EntryPtr, y: EntryPtr|
            #![trigger links.next[x], self.pos[y]]
            links.is_entry(x) && links.next[x] == links.end() && links.marked(y) && self.chain[x]
                == self.chain[y] ==> self.pos[y] <= self.pos[x]
    }

    /// Each chain begins where it should, and each entry behind has one before it.
    spec fn heads_ok(self, links: Links) -> bool {
        &&& forall|x: EntryPtr|
            links.marked(x) && self.chain[x] == EntryPtr::Null ==> #[trigger] self.pos[x]
                >= self.head
        &&& forall|x: EntryPtr|
            links.marked(x) && #[trigger] self.chain[x] != EntryPtr::Null ==> {
                let h = self.chain[x];
                &&& links.marked(h)
                &&& self.chain[h] == h
                &&& self.pos[h] <= self.pos[x]
            }
        &&& forall|x: EntryPtr|
            links.marked(x) && #[trigger] self.pos[x] > self.start(self.chain[x])
                ==> self.preceded(links, x)
        &&& self.listed(links, links.last)
    }

    /// The position at which a chain begins.
    spec fn start(self, chain: EntryPtr) -> int {
        if chain == EntryPtr::Null {
            self.head
        } else {
            self.pos[chain]
        }
    }

    /// Some entry points to `x`.
    #[verifier::opaque]
    spec fn preceded(self, links: Links, x: EntryPtr) -> bool {
        exists|w: EntryPtr| links.is_entry(w) && #[trigger] links.next[w] == x
    }

    /// Undertakings and entries belong together.
    spec fn owners_ok(self, links: Links, tasks: Map<int, Schedule>) -> bool {
        &&& forall|k: int| #[trigger]
            tasks.dom().contains(k) ==> {
                let task = tasks[k];
                &&& links.is_entry(task.entry)
                &&& claiming(task) ==> self.owner[task.entry] == k && links.marked(task.entry)
                &&& seeking(task) ==> self.chain[task.entry] == task.entry
                &&& task.stage matches Stage::Publish { last } ==> {
                    &&& links.is_entry(last)
                    &&& links.next[last] == task.entry
                    &&& self.chain[task.entry] != task.entry
                    &&& self.unsettled(links, task.entry)
                }
            }
        &&& forall|x: EntryPtr|
            self.unsettled(links, x) ==> {
                let task = tasks[#[trigger] self.owner[x]];
                &&& tasks.dom().contains(self.owner[x])
                &&& task.entry == x
                &&& claiming(task)
                &&& seeking(task) <==> self.chain[x] == x
            }
    }

    /// In a chain apart from the list the entries were claimed from back to front, and whoever is
    /// about to link its entry to such a chain claimed it before.
    spec fn times_ok(self, links: Links, tasks: Map<int, Schedule>) -> bool {
        &&& forall|x: EntryPtr| links.is_entry(x) ==> #[trigger] self.time[x] <= self.now
        &&& forall|x: EntryPtr, y: EntryPtr|
            #![trigger self.time[x], self.time[y]]
            links.marked(x) && links.marked(y) && self.chain[x] == self.chain[y] && self.chain[x]
                != EntryPtr::Null && self.pos[x] < self.pos[y] ==> self.time[x] > self.time[y]
        &&& forall|k: int| #[trigger]
            tasks.dom().contains(k) ==> {
                tasks[k].stage matches Stage::Link { last } ==> {
                    &&& links.is_entry(last)
                    &&& links.next[last] == EntryPtr::Null || self.chain[last] == EntryPtr::Null
                        || self.time[last] > self.time[tasks[k].entry]
                }
            }
    }

    /// All of the above.
    #[verifier::opaque]
    spec fn fits(self, links: Links, tasks: Map<int, Schedule>) -> bool {
        &&& self.links_ok(links)
        &&& self.heads_ok(links)
        &&& self.owners_ok(links, tasks)
        &&& self.times_ok(links, tasks)
    }
}

/// The list has only grown, and of the entries that were not scheduled only `claimed` may be.
spec fn grown(
    before: Links,
    shape: Shape,
    after: Links,
    shape2: Shape,
    claimed: EntryPtr,
) -> bool {
    &&& after.count == before.count
    &&& shape2.head == shape.head
    &&& forall|x: EntryPtr| #[trigger]
        shape.listed(before, x) ==> shape2.listed(after, x) && shape2.pos[x] == shape.pos[x]
    &&& forall|x: EntryPtr|
        before.marked(x) && before.next[x] != before.end() ==> #[trigger] after.next[x]
            == before.next[x]
    &&& forall|x: EntryPtr|
        before.is_entry(x) && before.next[x] == EntryPtr::Null && x != claimed
            ==> #[trigger] after.next[x] == EntryPtr::Null
    &&& shape2.pos[after.last] >= shape.pos[before.last]
}

/// Claiming an entry makes it a chain of its own.
proof fn lemma_step_claim(
    links: Links,
    tasks: Map<int, Schedule>,
    shape: Shape,
    k: int,
) -> (shape2: Shape)
    requires
        shape.fits(links, tasks),
        tasks.dom().contains(k),
        tasks[k].stage is Claim,
    ensures
        shape2.fits(tasks[k].stepped(links).1, tasks.insert(k, tasks[k].stepped(links).0)),
        grown(links, shape, tasks[k].stepped(links).1, shape2, tasks[k].entry),
{
    reveal(Shape::fits);
    let e = tasks[k].entry;
    let (task2, links2) = tasks[k].stepped(links);
    let tasks2 = tasks.insert(k, task2);
    if links.next[e] == EntryPtr::Null {
        let shape2 = Shape {
            chain: shape.chain.insert(e, e),
            pos: shape.pos.insert(e, 0),
            time: shape.time.insert(e, shape.now + 1),
            now: shape.now + 1,
            owner: shape.owner.insert(e, k),
            ..shape
        };
        assert(shape2.links_ok(links2));
        assert forall|x: EntryPtr| links2.marked(x) && #[trigger] shape2.pos[x] > shape2.start(
            shape2.chain[x],
        ) implies shape2.preceded(links2, x) by {
            assert(shape.chain[x] != e);
            assert(shape.pos[x] > shape.start(shape.chain[x]));
            assert(shape.preceded(links, x));
            reveal(Shape::preceded);
            let w = choose|w: EntryPtr| links.is_entry(w) && #[trigger] links.next[w] == x;
            assert(links2.next[w] == x);
        }
        assert(shape2.heads_ok(links2));
        assert(shape2.owners_ok(links2, tasks2));
        assert(shape2.times_ok(links2, tasks2));
        shape2
    } else {
        assert(shape.owners_ok(links2, tasks2));
        shape
    }
}

/// Reading the last entry changes nothing.
proof fn lemma_step_find(links: Links, tasks: Map<int, Schedule>, shape: Shape, k: int)
    requires
        shape.fits(links, tasks),
        tasks.dom().contains(k),
        tasks[k].stage is FindLast,
    ensures
        shape.fits(links, tasks.insert(k, tasks[k].stepped(links).0)),
{
    reveal(Shape::fits);
}

/// Giving up to link an entry changes nothing.
proof fn lemma_step_retry(links: Links, tasks: Map<int, Schedule>, shape: Shape, k: int)
    requires
        shape.fits(links, tasks),
        tasks.dom().contains(k),
        tasks[k].stage is Link,
    ensures
        shape.fits(links, tasks.insert(k, tasks[k].at(Stage::FindLast))),
{
    reveal(Shape::fits);
}

/// Linking an entry puts its chain behind another one.
proof fn lemma_step_link(
    links: Links,
    tasks: Map<int, Schedule>,
    shape: Shape,
    k: int,
) -> (shape2: Shape)
    requires
        shape.fits(links, tasks),
        tasks.dom().contains(k),
        tasks[k].stage is Link,
        links.next[tasks[k].stage->Link_last] == links.end(),
    ensures
        shape2.fits(tasks[k].stepped(links).1, tasks.insert(k, tasks[k].stepped(links).0)),
        grown(links, shape, tasks[k].stepped(links).1, shape2, tasks[k].entry),
        shape.chain[tasks[k].stage->Link_last] == EntryPtr::Null ==> shape2.listed(
            tasks[k].stepped(links).1,
            tasks[k].entry,
        ),
{
    reveal(Shape::fits);
    let e = tasks[k].entry;
    let l = tasks[k].stage->Link_last;
    let (task2, links2) = tasks[k].stepped(links);
    let tasks2 = tasks.insert(k, task2);
    let c = shape.chain[l];
    let d = shape.pos[l] + 1 - shape.pos[e];
    assert(c != e) by {
        if c == e {
            assert(shape.time[l] > shape.time[e]);
            assert(shape.pos[e] <= shape.pos[l]);
        }
    }
    let shape2 = Shape {
        chain: Map::new(
            |x: EntryPtr| true,
            |x: EntryPtr|
                if shape.chain[x] == e {
                    c
                } else {
                    shape.chain[x]
                },
        ),
        pos: Map::new(
            |x: EntryPtr| true,
            |x: EntryPtr|
                if shape.chain[x] == e {
                    shape.pos[x] + d
                } else {
                    shape.pos[x]
                },
        ),
        ..shape
    };
    assert(shape2.links_ok(links2));
    assert forall|x: EntryPtr| links2.marked(x) && #[trigger] shape2.pos[x] > shape2.start(
        shape2.chain[x],
    ) implies shape2.preceded(links2, x) by {
        reveal(Shape::preceded);
        if x == e {
            assert(links2.next[l] == x);
        } else {
            assert(shape.pos[x] > shape.start(shape.chain[x]));
            assert(shape.preceded(links, x));
            let w = choose|w: EntryPtr| links.is_entry(w) && #[trigger] links.next[w] == x;
            assert(links2.next[w] == x);
        }
    }
    assert(shape2.heads_ok(links2));
    assert(shape2.owners_ok(links2, tasks2));
    assert forall|x: EntryPtr, y: EntryPtr|
        #![trigger shape2.time[x], shape2.time[y]]
        links2.marked(x) && links2.marked(y) && shape2.chain[x] == shape2.chain[y]
            && shape2.chain[x] != EntryPtr::Null && shape2.pos[x] < shape2.pos[y] implies
        shape2.time[x] > shape2.time[y] by {
        assert(shape.time[x] <= shape.now && shape.time[y] <= shape.now);
        assert(shape.time[l] <= shape.now && shape.time[e] <= shape.now);
        if shape.chain[x] == c && shape.chain[y] == e {
            assert(shape.pos[x] <= shape.pos[l]);
            assert(shape.pos[e] <= shape.pos[y]);
        } else if shape.chain[x] == e && shape.chain[y] == c {
            assert(shape.pos[y] <= shape.pos[l]);
            assert(shape.pos[e] <= shape.pos[x]);
        }
    }
    assert(shape2.times_ok(links2, tasks2));
    shape2
}

/// Making an entry the last one settles it.
proof fn lemma_step_publish(links: Links, tasks: Map<int, Schedule>, shape: Shape, k: int)
    requires
        shape.fits(links, tasks),
        tasks.dom().contains(k),
        tasks[k].stage is Publish,
    ensures
        shape.fits(tasks[k].stepped(links).1, tasks.insert(k, tasks[k].stepped(links).0)),
        grown(links, shape, tasks[k].stepped(links).1, shape, tasks[k].entry),
{
    reveal(Shape::fits);
    let e = tasks[k].entry;
    let (task2, links2) = tasks[k].stepped(links);
    let tasks2 = tasks.insert(k, task2);
    assert(shape.links_ok(links2));
    assert forall|x: EntryPtr| links2.marked(x) && #[trigger] shape.pos[x] > shape.start(
        shape.chain[x],
    ) implies shape.preceded(links2, x) by {
        reveal(Shape::preceded);
        assert(shape.preceded(links, x));
        let w = choose|w: EntryPtr| links.is_entry(w) && #[trigger] links.next[w] == x;
        assert(links2.next[w] == x);
    }
    assert(shape.heads_ok(links2));
    assert(shape.owners_ok(links2, tasks2));
    assert(shape.times_ok(links2, tasks2));
}

/// What follows of an undertaking and of the last entry.
proof fn lemma_fits_facts(links: Links, tasks: Map<int, Schedule>, shape: Shape)
    requires
        shape.fits(links, tasks),
    ensures
        links.count <= usize::MAX,
        shape.listed(links, links.last),
        forall|x: EntryPtr|
            links.is_entry(x) && #[trigger] links.next[x] != EntryPtr::Null && links.next[x]
                != links.end() ==> links.is_entry(links.next[x]),
        forall|k: int| #[trigger]
            tasks.dom().contains(k) ==> {
                &&& tasks[k].in_bounds(links)
                &&& seeking(tasks[k]) ==> shape.chain[tasks[k].entry] == tasks[k].entry
                &&& tasks[k].stage matches Stage::Publish { last } ==> {
                    &&& links.is_entry(last)
                    &&& links.next[last] == tasks[k].entry
                    &&& shape.unsettled(links, tasks[k].entry)
                }
            },
{
    reveal(Shape::fits);
}

/// Whatever step an undertaking takes, the shape goes with it.
proof fn lemma_step_any(links: Links, tasks: Map<int, Schedule>, shape: Shape, k: int) -> (shape2:
    Shape)
    requires
        shape.fits(links, tasks),
        tasks.dom().contains(k),
    ensures
        shape2.fits(tasks[k].stepped(links).1, tasks.insert(k, tasks[k].stepped(links).0)),
        grown(links, shape, tasks[k].stepped(links).1, shape2, tasks[k].entry),
        tasks[k].stage matches Stage::Link { last } ==> shape.listed(links, last)
            && links.next[last] == links.end() ==> shape2.listed(
            tasks[k].stepped(links).1,
            tasks[k].entry,
        ),
{
    match tasks[k].stage {
        Stage::Claim => lemma_step_claim(links, tasks, shape, k),
        Stage::FindLast => {
            lemma_step_find(links, tasks, shape, k);
            shape
        },
        Stage::Link { last } => {
            if links.next[last] == links.end() {
                lemma_step_link(links, tasks, shape, k)
            } else {
                lemma_step_retry(links, tasks, shape, k);
                shape
            }
        },
        Stage::Publish { .. } => {
            lemma_step_publish(links, tasks, shape, k);
            shape
        },
        Stage::Done { .. } => {
            assert(tasks.insert(k, tasks[k]) =~= tasks);
            shape
        },
    }
}

/// An undertaking that is about to begin changes nothing.
proof fn lemma_add_task(
    links: Links,
    tasks: Map<int, Schedule>,
    shape: Shape,
    k: int,
    entry: EntryPtr,
)
    requires
        shape.fits(links, tasks),
        !tasks.dom().contains(k),
        links.is_entry(entry),
    ensures
        shape.fits(links, tasks.insert(k, Schedule { entry, stage: Stage::Claim })),
{
    reveal(Shape::fits);
}

/// An undertaking that is over can be forgotten.
proof fn lemma_remove_task(links: Links, tasks: Map<int, Schedule>, shape: Shape, k: int)
    requires
        shape.fits(links, tasks),
        tasks.dom().contains(k),
        tasks[k].stage is Done,
    ensures
        shape.fits(links, tasks.remove(k)),
{
    reveal(Shape::fits);
}

/// Behind the first entry of the list, if it is not the last one, there is another one.
proof fn lemma_second(links: Links, shape: Shape, x: EntryPtr)
    requires
        shape.links_ok(links),
        shape.heads_ok(links),
        shape.listed(links, x),
        shape.pos[x] == shape.head,
        x != links.last,
    ensures
        shape.pos[links.last] > shape.head,
        links.marked(links.next[x]),
        links.next[x] != x,
        shape.chain[links.next[x]] == EntryPtr::Null,
        shape.pos[links.next[x]] == shape.head + 1,
{
    assert(shape.pos[links.last] > shape.head);
    let y = links.next[x];
    assert(links.next[y] != EntryPtr::Null);
    assert(shape.pos[y] == shape.head + 1);
}

/// Taking the first entry off leaves the other links in order.
proof fn lemma_pop_links(links: Links, shape: Shape, x: EntryPtr)
    requires
        shape.links_ok(links),
        shape.heads_ok(links),
        shape.listed(links, x),
        shape.pos[x] == shape.head,
    ensures
        shape.links_ok(links.linked(x, EntryPtr::Null)),
{
    let links2 = links.linked(x, EntryPtr::Null);
    assert forall|y: EntryPtr, z: EntryPtr|
        #![trigger links2.next[y], links2.next[z]]
        links2.is_entry(y) && links2.next[y] == z && links2.is_entry(z) implies links2.next[z]
        != EntryPtr::Null by {
        assert(links.next[y] == z);
        if z == x {
            assert(shape.pos[z] == shape.pos[y] + 1);
        }
    }
}

/// Taking the first entry off makes the second one the first one.
proof fn lemma_pop_heads(links: Links, shape: Shape, x: EntryPtr)
    requires
        shape.links_ok(links),
        shape.heads_ok(links),
        shape.listed(links, x),
        shape.pos[x] == shape.head,
        x != links.last,
    ensures
        (Shape { head: shape.head + 1, ..shape }).heads_ok(links.linked(x, EntryPtr::Null)),
{
    let links2 = links.linked(x, EntryPtr::Null);
    let shape2 = Shape { head: shape.head + 1, ..shape };
    lemma_second(links, shape, x);
    let y = links.next[x];
    assert forall|z: EntryPtr| links2.marked(z) && #[trigger] shape2.pos[z] > shape2.start(
        shape2.chain[z],
    ) implies shape2.preceded(links2, z) by {
        reveal(Shape::preceded);
        assert(shape.pos[z] > shape.start(shape.chain[z]));
        assert(shape.preceded(links, z));
        let w = choose|w: EntryPtr| links.is_entry(w) && #[trigger] links.next[w] == z;
        assert(w != x);
        assert(links2.next[w] == z);
    }
}

/// Taking the first entry off concerns no undertaking.
proof fn lemma_pop_owners(links: Links, tasks: Map<int, Schedule>, shape: Shape, x: EntryPtr)
    requires
        shape.links_ok(links),
        shape.heads_ok(links),
        shape.owners_ok(links, tasks),
        shape.listed(links, x),
        shape.pos[x] == shape.head,
        x != links.last,
    ensures
        shape.owners_ok(links.linked(x, EntryPtr::Null), tasks),
{
    lemma_second(links, shape, x);
    let y = links.next[x];
    assert forall|k: int|
        tasks.dom().contains(k) && claiming(#[trigger] tasks[k]) implies tasks[k].entry != x && (
    tasks[k].stage matches Stage::Publish { last } ==> last != x) by {
        if let Stage::Publish { last } = tasks[k].stage {
            if last == x {
                assert(shape.unsettled(links, y));
            }
        }
    }
}

/// The first entry of the list can be taken off, if it is not the last one.
proof fn lemma_pop_head(
    links: Links,
    tasks: Map<int, Schedule>,
    shape: Shape,
    x: EntryPtr,
) -> (shape2: Shape)
    requires
        shape.fits(links, tasks),
        shape.listed(links, x),
        shape.pos[x] == shape.head,
        x != links.last,
    ensures
        shape2.fits(links.linked(x, EntryPtr::Null), tasks),
        shape2 == (Shape { head: shape.head + 1, ..shape }),
        links.is_entry(links.next[x]),
        links.next[x] != x,
        shape2.listed(links.linked(x, EntryPtr::Null), links.next[x]),
        shape2.pos[links.next[x]] == shape2.head,
{
    let links2 = links.linked(x, EntryPtr::Null);
    let shape2 = Shape { head: shape.head + 1, ..shape };
    assert(shape2.fits(links2, tasks)) by {
        reveal(Shape::fits);
        lemma_pop_links(links, shape, x);
        lemma_pop_heads(links, shape, x);
        lemma_pop_owners(links, tasks, shape, x);
        assert(shape2.links_ok(links2));
        assert(shape2.owners_ok(links2, tasks));
        assert(shape2.times_ok(links2, tasks));
    }
    assert(shape.links_ok(links) && shape.heads_ok(links)) by {
        reveal(Shape::fits);
    }
    lemma_second(links, shape, x);
    shape2
}

/// An entry in the midst of the list can be taken out.
proof fn lemma_take_out(
    links: Links,
    tasks: Map<int, Schedule>,
    shape: Shape,
    w: EntryPtr,
    x: EntryPtr,
) -> (shape2: Shape)
    requires
        shape.fits(links, tasks),
        shape.listed(links, w),
        links.next[w] == x,
        shape.listed(links, x),
        shape.pos[x] < shape.pos[links.last],
    ensures
        shape2.fits(links.linked(x, EntryPtr::Null).linked(w, links.next[x]), tasks),
        links.is_entry(links.next[x]),
        w != x,
        shape2.head == shape.head,
        forall|y: EntryPtr| #[trigger] shape.listed(links, y) && y != x ==> {
            &&& shape2.listed(links.linked(x, EntryPtr::Null).linked(w, links.next[x]), y)
            &&& shape2.pos[y] == (if shape.pos[y] > shape.pos[x] {
                shape.pos[y] - 1
            } else {
                shape.pos[y]
            })
        },
{
    reveal(Shape::fits);
    let nx = links.next[x];
    let links2 = links.linked(x, EntryPtr::Null).linked(w, nx);
    let shape2 = Shape {
        pos: Map::new(
            |y: EntryPtr| true,
            |y: EntryPtr|
                if shape.chain[y] == EntryPtr::Null && shape.pos[y] > shape.pos[x] {
                    shape.pos[y] - 1
                } else {
                    shape.pos[y]
                },
        ),
        ..shape
    };
    assert(shape.pos[x] == shape.pos[w] + 1);
    assert(shape.pos[nx] == shape.pos[x] + 1);
    assert(links.next[nx] != EntryPtr::Null);
    assert(shape2.links_ok(links2));
    assert forall|z: EntryPtr| links2.marked(z) && #[trigger] shape2.pos[z] > shape2.start(
        shape2.chain[z],
    ) implies shape2.preceded(links2, z) by {
        reveal(Shape::preceded);
        if z == nx {
            assert(links2.next[w] == z);
        } else {
            assert(shape.pos[z] > shape.start(shape.chain[z]));
            assert(shape.preceded(links, z));
            let v = choose|v: EntryPtr| links.is_entry(v) && #[trigger] links.next[v] == z;
            assert(v != x);
            assert(links2.next[v] == z);
        }
    }
    assert(shape2.heads_ok(links2));
    assert(shape2.owners_ok(links2, tasks));
    assert(shape2.times_ok(links2, tasks));
    shape2
}

/// A join, its wakers that are being used and its poll.
pub struct System {
    pub links: Links,
    /// The undertakings of the wakers, by arbitrary numbers.
    pub wakers: Map<int, Schedule>,
    /// The poll that is going on, if any.
    pub poller: Option<Polling>,
    /// What the slot of the external waker holds.
    pub slot: Option<Waker>,
    /// The waker of the poll that began last.
    pub asked: Option<Waker>,
    /// Whether the external waker has been used since that poll stored it.
    pub used: bool,
    /// The entries that have been woken since they were last taken off the list.
    pub due: Set<EntryPtr>,
    /// The entries that stood in the list when the poll began and that it has not come to yet.
    pub owed: Set<EntryPtr>,
}

/// What can happen next.
pub enum Move {
    /// A future is woken: the undertaking `t` to append entry `i` begins.
    BeginWake { t: int, i: usize },
    /// The undertaking `t` takes a step.
    StepWake { t: int },
    /// The undertaking `t` fails to link its entry although it could have.
    RetryWake { t: int },
    /// The undertaking `t` is over; it uses the external waker if it may.
    EndWake { t: int },
    /// A poll begins, for the task of `waker`.
    BeginPoll { waker: Waker },
    /// The poll takes a step.
    StepPoll,
    /// The poll fails to link an entry although it could have.
    RetryPoll,
    /// The poll goes on to the next entry of its batch, or is over.
    Walk,
}

/// The undertaking that is part of a poll, if any.
pub open spec fn poll_schedule(poller: Option<Polling>) -> Option<Schedule> {
    match poller {
        Some(Polling::EnterBuffer { schedule }) => Some(schedule),
        Some(Polling::EnterRoot { schedule, .. }) => Some(schedule),
        _ => None,
    }
}

/// The poll with another undertaking as part of it.
pub open spec fn with_schedule(polling: Polling, schedule: Schedule) -> Polling {
    match polling {
        Polling::EnterBuffer { .. } => Polling::EnterBuffer { schedule },
        Polling::EnterRoot { intermediate, first, .. } => Polling::EnterRoot {
            intermediate,
            first,
            schedule,
        },
        _ => polling,
    }
}

impl System {
    /// A join of `count` futures that has not been polled.
    pub open spec fn initial(self, count: usize) -> bool {
        &&& self.links == initial_links(count as nat)
        &&& self.wakers == Map::<int, Schedule>::empty()
        &&& self.poller is None
        &&& self.slot is None
        &&& self.asked is None
        &&& self.due == Set::<EntryPtr>::empty()
        &&& self.owed == Set::<EntryPtr>::empty()
    }

    /// Whether an undertaking of a waker has claimed the entry at `x` and is not over.
    pub open spec fn claimed(self, x: EntryPtr) -> bool {
        exists|t: int|
            self.wakers.dom().contains(t) && claiming(#[trigger] self.wakers[t])
                && self.wakers[t].entry == x
    }

    /// Whether the entry at `x` has a future, is scheduled, and nobody is in the midst of appending
    /// it.
    pub open spec fn stands(self, x: EntryPtr) -> bool {
        x is At && self.links.marked(x) && !self.claimed(x)
    }

    /// What `m` makes of the system.
    pub open spec fn moves(self, next: System, m: Move) -> bool {
        match m {
            Move::BeginWake { t, i } => {
                &&& t >= 0
                &&& !self.wakers.dom().contains(t)
                &&& i < self.links.count
                &&& next == (System {
                    wakers: self.wakers.insert(
                        t,
                        Schedule { entry: EntryPtr::At(i), stage: Stage::Claim },
                    ),
                    ..self
                })
            },
            Move::StepWake { t } => {
                &&& self.wakers.dom().contains(t)
                &&& !(self.wakers[t].stage is Done)
                &&& next == (System {
                    links: self.wakers[t].stepped(self.links).1,
                    wakers: self.wakers.insert(t, self.wakers[t].stepped(self.links).0),
                    due: if self.wakers[t].stage is Claim {
                        self.due.insert(self.wakers[t].entry)
                    } else {
                        self.due
                    },
                    ..self
                })
            },
            Move::RetryWake { t } => {
                &&& self.wakers.dom().contains(t)
                &&& self.wakers[t].stage is Link
                &&& next == (System {
                    wakers: self.wakers.insert(t, self.wakers[t].at(Stage::FindLast)),
                    ..self
                })
            },
            Move::EndWake { t } => {
                &&& self.wakers.dom().contains(t)
                &&& self.wakers[t].stage is Done
                &&& next == (System {
                    wakers: self.wakers.remove(t),
                    slot: if self.wakers[t].stage == (Stage::Done { behind: Some(EntryPtr::Root) }) {
                        None
                    } else {
                        self.slot
                    },
                    used: self.used || (self.slot is Some && self.wakers[t].stage == (Stage::Done {
                        behind: Some(EntryPtr::Root),
                    })),
                    ..self
                })
            },
            Move::BeginPoll { waker } => {
                &&& self.poller is None
                &&& next == (System {
                    asked: Some(waker),
                    used: false,
                    owed: Set::new(|x: EntryPtr| self.stands(x)),
                    poller: Some(
                        Polling::EnterBuffer {
                            schedule: Schedule { entry: EntryPtr::Buffer, stage: Stage::Claim },
                        },
                    ),
                    ..self
                })
            },
            Move::StepPoll => {
                &&& self.poller is Some
                &&& self.poller->0.may_hold(self.slot, self.asked->0, next.slot)
                &&& next == (System {
                    links: self.poller->0.stepped(self.links).1,
                    poller: Some(self.poller->0.stepped(self.links).0),
                    slot: next.slot,
                    used: self.used && !(self.poller->0 is Register),
                    ..self
                })
            },
            Move::RetryPoll => {
                &&& poll_schedule(self.poller) is Some
                &&& poll_schedule(self.poller)->0.stage is Link
                &&& next == (System {
                    poller: Some(
                        with_schedule(
                            self.poller->0,
                            poll_schedule(self.poller)->0.at(Stage::FindLast),
                        ),
                    ),
                    ..self
                })
            },
            Move::Walk => {
                &&& self.poller matches Some(Polling::Walk { current })
                &&& if current == EntryPtr::Root {
                    next == (System { poller: None, ..self })
                } else {
                    next == (System {
                        links: self.links.linked(current, EntryPtr::Null),
                        poller: Some(Polling::Walk { current: self.links.next[current] }),
                        due: self.due.remove(current),
                        owed: self.owed.remove(current),
                        ..self
                    })
                }
            },
        }
    }

    /// Every step can be taken: none reaches outside the shared memory.
    pub open spec fn in_bounds(self) -> bool {
        &&& forall|t: int| #[trigger]
            self.wakers.dom().contains(t) ==> self.wakers[t].in_bounds(self.links)
        &&& self.poller matches Some(polling) ==> {
            &&& polling.in_bounds(self.links)
            &&& polling matches Polling::Walk { current } ==> current == EntryPtr::Root
                || self.links.has_future(current)
        }
    }

    /// The undertaking `t` is about to use the external waker.
    pub open spec fn will_wake(self, t: int) -> bool {
        &&& self.wakers.dom().contains(t)
        &&& self.wakers[t].stage == (Stage::Publish { last: EntryPtr::Root })
            || self.wakers[t].stage == (Stage::Done { behind: Some(EntryPtr::Root) })
    }

    /// If entries wait for the next poll, the external waker has been used since the last one, or
    /// it is in the slot and an undertaking is about to use it.
    pub open spec fn wakes(self) -> bool {
        self.poller is None && self.asked is Some && self.links.is_entry(
            self.links.next[EntryPtr::Root],
        ) ==> {
            &&& self.used || self.slot is Some
            &&& self.slot is Some ==> exists|t: int| self.will_wake(t)
        }
    }

    /// Whether the poll that began last has stored its waker.
    pub open spec fn has_stored(self) -> bool {
        &&& self.asked is Some
        &&& !(self.poller matches Some(Polling::EnterBuffer { .. }))
        &&& !(self.poller matches Some(Polling::Register { .. }))
    }

    /// The waker that a poll has stored is in the slot until it is used; and what is in the slot
    /// wakes the task of that poll.
    pub open spec fn keeps_the_waker(self) -> bool {
        self.has_stored() ==> {
            &&& self.used || self.slot is Some
            &&& self.slot matches Some(present) ==> serves(present, self.asked->0)
        }
    }

    /// Every entry that has been woken since it was last taken off the list is scheduled.
    pub open spec fn woken_are_scheduled(self) -> bool {
        forall|x: EntryPtr| #[trigger] self.due.contains(x) ==> x is At && self.links.marked(x)
    }

    /// A poll comes to every entry that stood in the list when it began, before it is over.
    pub open spec fn polls_come_to_all(self) -> bool {
        &&& forall|x: EntryPtr| #[trigger] self.owed.contains(x) ==> x is At && self.links.marked(x)
        &&& self.poller is None || self.poller == Some(Polling::Walk { current: EntryPtr::Root })
            ==> self.owed == Set::<EntryPtr>::empty()
    }

    /// While the buffer entry is in the list, no waker can come first behind the root entry.
    pub open spec fn buffer_shuts_the_root(self) -> bool {
        self.poller is Some && (self.poller->0 is Register || self.poller->0 is TakeBatch)
            ==> self.links.next[EntryPtr::Root] != self.links.end()
    }

    /// No two wakers are appending the same entry.
    pub open spec fn claims_are_exclusive(self) -> bool {
        forall|t: int, u: int|
            #![trigger self.wakers[t], self.wakers[u]]
            self.wakers.dom().contains(t) && self.wakers.dom().contains(u) && t != u && claiming(
                self.wakers[t],
            ) && claiming(self.wakers[u]) ==> self.wakers[t].entry != self.wakers[u].entry
    }

    /// Nobody is in the midst of changing the list.
    pub open spec fn quiet(self) -> bool {
        &&& forall|t: int| #[trigger]
            self.wakers.dom().contains(t) ==> !claiming(self.wakers[t])
        &&& self.poller is None || self.poller matches Some(Polling::Walk { .. })
    }

    /// Whether the list consists of `batch` and `waiting`, and the poll is where it should be.
    pub open spec fn has_list(self, batch: Seq<EntryPtr>, waiting: Seq<EntryPtr>) -> bool {
        &&& self.links.represent(batch, waiting)
        &&& match self.poller {
            None => batch.len() == 0,
            Some(Polling::Walk { current }) => current == Links::list(batch, waiting)[0],
            _ => false,
        }
    }

    /// Whenever nobody is in the midst of changing the list, it is whole: it holds every entry that
    /// is marked as scheduled, each once.
    pub open spec fn list_is_whole(self) -> bool {
        self.quiet() ==> exists|batch: Seq<EntryPtr>, waiting: Seq<EntryPtr>|
            self.has_list(batch, waiting)
    }

    /// All of the above.
    pub open spec fn safe(self) -> bool {
        &&& self.in_bounds()
        &&& self.wakes()
        &&& self.keeps_the_waker()
        &&& self.woken_are_scheduled()
        &&& self.polls_come_to_all()
        &&& self.buffer_shuts_the_root()
        &&& self.claims_are_exclusive()
        &&& self.list_is_whole()
    }

    /// All undertakings, with that of the poll under the number -1.
    spec fn tasks(self) -> Map<int, Schedule> {
        match poll_schedule(self.poller) {
            Some(schedule) => self.wakers.insert(-1, schedule),
            None => self.wakers,
        }
    }

    /// The links as if the gap that the buffer entry left had been closed.
    spec fn effective(self) -> Links {
        match self.poller {
            Some(Polling::Bypass { intermediate, next, .. }) => self.links.linked(
                intermediate,
                next,
            ),
            _ => self.links,
        }
    }

    /// What holds at any time.
    spec fn inv(self, shape: Shape) -> bool {
        &&& forall|t: int| #[trigger]
            self.wakers.dom().contains(t) ==> t >= 0 && self.links.has_future(self.wakers[t].entry)
        &&& shape.fits(self.effective(), self.tasks())
        &&& phase_ok(self.effective(), shape, self.poller)
        &&& self.poller matches Some(Polling::Bypass { intermediate, .. })
            ==> self.links.next[intermediate] == EntryPtr::Buffer
        &&& self.notified()
        &&& self.keeps_the_waker()
        &&& self.woken_are_scheduled()
        &&& owed_ok(self.effective(), shape, self.poller, self.owed)
        &&& self.poller is Some ==> self.asked is Some
    }

    /// If something stands behind the root entry, the external waker has been used since it was
    /// stored, or an undertaking is about to use it. A poll that takes all of it need not care.
    spec fn notified(self) -> bool {
        self.slot is Some && !(self.poller matches Some(Polling::TakeBatch { .. }))
            && self.links.is_entry(self.links.next[EntryPtr::Root])
            && self.links.next[EntryPtr::Root] != EntryPtr::Buffer ==> exists|t: int|
            #[trigger] self.will_wake(t)
    }
}

/// Whether `x` is the first entry of the list.
spec fn first_is(links: Links, shape: Shape, x: EntryPtr) -> bool {
    shape.listed(links, x) && shape.pos[x] == shape.head
}

/// Whether `x` stands in the list, and not behind its last entry.
spec fn settled_at(links: Links, shape: Shape, x: EntryPtr) -> bool {
    shape.listed(links, x) && shape.pos[x] <= shape.pos[links.last]
}

/// Whether the buffer entry stands behind `mid`, which is the root entry if it was taken off.
spec fn behind_mid(links: Links, shape: Shape, mid: EntryPtr, first: EntryPtr) -> bool {
    ||| mid == EntryPtr::Root && first == EntryPtr::Buffer
    ||| mid != EntryPtr::Root && shape.listed(links, mid) && links.next[mid] == EntryPtr::Buffer
}

/// Where the root entry and the buffer entry are while a poll is at `poller`.
spec fn phase_ok(links: Links, shape: Shape, poller: Option<Polling>) -> bool {
    match poller {
        None => {
            &&& first_is(links, shape, EntryPtr::Root)
            &&& links.next[EntryPtr::Buffer] == EntryPtr::Null
        },
        Some(Polling::EnterBuffer { schedule }) => {
            &&& first_is(links, shape, EntryPtr::Root)
            &&& schedule.entry == EntryPtr::Buffer
            &&& match schedule.stage {
                Stage::Claim => links.next[EntryPtr::Buffer] == EntryPtr::Null,
                Stage::FindLast => true,
                Stage::Link { last } => shape.listed(links, last),
                Stage::Publish { .. } => shape.listed(links, EntryPtr::Buffer),
                Stage::Done { .. } => false,
            }
        },
        Some(Polling::Register { intermediate }) | Some(Polling::TakeBatch { intermediate }) => {
            &&& first_is(links, shape, EntryPtr::Root)
            &&& settled_at(links, shape, EntryPtr::Buffer)
            &&& shape.listed(links, intermediate)
            &&& links.next[intermediate] == EntryPtr::Buffer
        },
        Some(Polling::EnterRoot { intermediate, first, schedule }) => {
            &&& first_is(links, shape, first)
            &&& settled_at(links, shape, EntryPtr::Buffer)
            &&& behind_mid(links, shape, intermediate, first)
            &&& schedule.entry == EntryPtr::Root
            &&& match schedule.stage {
                Stage::Claim => links.next[EntryPtr::Root] == EntryPtr::Null,
                Stage::FindLast => true,
                Stage::Link { last } => shape.listed(links, last),
                Stage::Publish { .. } => shape.listed(links, EntryPtr::Root),
                Stage::Done { .. } => false,
            }
        },
        Some(Polling::TakeBuffer { intermediate, first }) => {
            &&& first_is(links, shape, first)
            &&& settled_at(links, shape, EntryPtr::Buffer)
            &&& behind_mid(links, shape, intermediate, first)
            &&& settled_at(links, shape, EntryPtr::Root)
            &&& shape.pos[EntryPtr::Buffer] < shape.pos[EntryPtr::Root]
        },
        Some(Polling::Bypass { intermediate, first, next }) => {
            &&& first_is(links, shape, first)
            &&& settled_at(links, shape, EntryPtr::Root)
            &&& links.next[EntryPtr::Buffer] == EntryPtr::Null
            &&& shape.listed(links, intermediate)
            &&& intermediate != EntryPtr::Root
            &&& shape.pos[intermediate] < shape.pos[EntryPtr::Root]
            &&& links.next[intermediate] == next
            &&& links.is_entry(next)
        },
        Some(Polling::Walk { current }) => {
            &&& first_is(links, shape, current)
            &&& settled_at(links, shape, EntryPtr::Root)
            &&& links.next[EntryPtr::Buffer] == EntryPtr::Null
        },
    }
}

/// Where the entries are that a poll has yet to come to: up to the last one when it begins, then
/// before the buffer entry, and in the end before the root entry.
spec fn owed_ok(links: Links, shape: Shape, poller: Option<Polling>, owed: Set<EntryPtr>) -> bool {
    forall|x: EntryPtr| #[trigger] owed.contains(x) ==> {
        &&& x is At
        &&& match poller {
            None => false,
            Some(Polling::EnterBuffer { .. }) => settled_at(links, shape, x),
            Some(Polling::Bypass { .. }) | Some(Polling::Walk { .. }) => shape.listed(links, x)
                && shape.pos[x] < shape.pos[EntryPtr::Root],
            _ => shape.listed(links, x) && shape.pos[x] < shape.pos[EntryPtr::Buffer],
        }
    }
}

/// Growth of the list elsewhere leaves those entries where they are.
proof fn lemma_owed_kept(
    before: Links,
    shape: Shape,
    after: Links,
    shape2: Shape,
    claimed: EntryPtr,
    poller: Option<Polling>,
    owed: Set<EntryPtr>,
)
    requires
        phase_ok(before, shape, poller),
        owed_ok(before, shape, poller, owed),
        grown(before, shape, after, shape2, claimed),
    ensures
        owed_ok(after, shape2, poller, owed),
{
    assert forall|x: EntryPtr| #[trigger] owed.contains(x) implies shape2.listed(after, x)
        && shape2.pos[x] == shape.pos[x] by {
        assert(shape.listed(before, x));
    }
    if poller is Some && !(poller->0 is EnterBuffer) {
        if poller->0 is Bypass || poller->0 is Walk {
            assert(shape.listed(before, EntryPtr::Root));
        } else {
            assert(shape.listed(before, EntryPtr::Buffer));
        }
    }
}

/// A step of an undertaking takes no mark away.
proof fn lemma_marks_kept(schedule: Schedule, links: Links)
    requires
        links.count <= usize::MAX,
    ensures
        forall|x: EntryPtr| #[trigger] links.marked(x) && schedule.in_bounds(links)
            ==> schedule.stepped(links).1.marked(x),
        schedule.stage is Claim && links.is_entry(schedule.entry)
            ==> schedule.stepped(links).1.marked(schedule.entry),
{
    if schedule.stage is Link && schedule.in_bounds(links) {
        assert(schedule.entry != EntryPtr::Null);
    }
}

/// Growth of the list elsewhere leaves the root entry and the buffer entry where they are.
proof fn lemma_phase_kept(
    before: Links,
    shape: Shape,
    after: Links,
    shape2: Shape,
    claimed: EntryPtr,
    poller: Option<Polling>,
)
    requires
        phase_ok(before, shape, poller),
        grown(before, shape, after, shape2, claimed),
        claimed is At,
        before.count <= usize::MAX,
    ensures
        phase_ok(after, shape2, poller),
{
}

/// A step of a waker keeps the invariant.
proof fn lemma_step_wake(s: System, next: System, t: int, shape: Shape) -> (shape2: Shape)
    requires
        s.inv(shape),
        s.moves(next, Move::StepWake { t }),
    ensures
        next.inv(shape2),
{
    lemma_fits_facts(s.effective(), s.tasks(), shape);
    let links = s.effective();
    let tasks = s.tasks();
    let task = s.wakers[t];
    let e = task.entry;
    assert(tasks[t] == task);
    assert(tasks.dom().contains(t));
    assert(next.tasks() =~= tasks.insert(t, task.stepped(s.links).0));
    assert(task.stepped(links).0 == task.stepped(s.links).0);
    assert(next.effective() =~= task.stepped(links).1);
    let shape2 = lemma_step_any(links, tasks, shape, t);
    lemma_phase_kept(links, shape, next.effective(), shape2, e, s.poller);
    lemma_owed_kept(links, shape, next.effective(), shape2, e, s.poller, s.owed);
    assert(task.in_bounds(s.links));
    lemma_marks_kept(task, s.links);
    assert(next.notified()) by {
        if s.slot is Some && !(s.poller matches Some(Polling::TakeBatch { .. }))
            && next.links.is_entry(next.links.next[EntryPtr::Root])
            && next.links.next[EntryPtr::Root] != EntryPtr::Buffer {
            if s.links.next[EntryPtr::Root] == next.links.next[EntryPtr::Root] {
                let u = choose|u: int| #[trigger] s.will_wake(u);
                assert(next.will_wake(u));
            } else {
                assert(next.will_wake(t));
            }
        }
    }
    shape2
}

/// The other moves of a waker keep the invariant.
proof fn lemma_other_wake(s: System, next: System, m: Move, shape: Shape)
    requires
        s.inv(shape),
        s.moves(next, m),
        m is BeginWake || m is RetryWake || m is EndWake,
    ensures
        next.inv(shape),
{
    lemma_fits_facts(s.effective(), s.tasks(), shape);
    let links = s.effective();
    let tasks = s.tasks();
    assert(next.effective() == links);
    match m {
        Move::BeginWake { t, i } => {
            let schedule = Schedule { entry: EntryPtr::At(i), stage: Stage::Claim };
            assert(next.tasks() =~= tasks.insert(t, schedule));
            lemma_add_task(links, tasks, shape, t, EntryPtr::At(i));
        },
        Move::RetryWake { t } => {
            assert(next.tasks() =~= tasks.insert(t, s.wakers[t].at(Stage::FindLast)));
            lemma_step_retry(links, tasks, shape, t);
        },
        Move::EndWake { t } => {
            assert(next.tasks() =~= tasks.remove(t));
            lemma_remove_task(links, tasks, shape, t);
        },
        _ => {},
    }
    assert(next.notified()) by {
        if next.slot is Some && !(s.poller matches Some(Polling::TakeBatch { .. }))
            && next.links.is_entry(next.links.next[EntryPtr::Root])
            && next.links.next[EntryPtr::Root] != EntryPtr::Buffer {
            let u = choose|u: int| #[trigger] s.will_wake(u);
            assert(next.will_wake(u));
        }
    }
}

/// A step of the undertaking that is part of a poll leaves the root entry and the buffer entry
/// where they should be.
proof fn lemma_phase_stepped(
    links: Links,
    shape: Shape,
    shape2: Shape,
    poller: Polling,
    schedule: Schedule,
)
    requires
        phase_ok(links, shape, Some(poller)),
        poll_schedule(Some(poller)) == Some(schedule),
        links.count <= usize::MAX,
        grown(links, shape, schedule.stepped(links).1, shape2, schedule.entry),
        shape.listed(links, links.last),
        schedule.stage is Link && schedule.stepped(links).0.stage is Publish ==> shape2.listed(
            schedule.stepped(links).1,
            schedule.entry,
        ),
        schedule.stage matches Stage::Publish { last } ==> {
            &&& links.next[last] == schedule.entry
            &&& shape.pos[schedule.entry] > shape.pos[links.last]
        },
    ensures
        phase_ok(schedule.stepped(links).1, shape2, Some(poller.stepped(links).0)),
{
}

/// A step of the undertaking that is part of a poll keeps the invariant.
proof fn lemma_step_poll_schedule(s: System, next: System, shape: Shape) -> (shape2: Shape)
    requires
        s.inv(shape),
        s.moves(next, Move::StepPoll),
        poll_schedule(s.poller) is Some,
    ensures
        next.inv(shape2),
{
    lemma_fits_facts(s.effective(), s.tasks(), shape);
    let links = s.links;
    let tasks = s.tasks();
    let task = poll_schedule(s.poller)->0;
    let e = task.entry;
    let k = -1int;
    assert(tasks[k] == task);
    assert(tasks.dom().contains(k));
    let (task2, links2) = task.stepped(links);
    let tasks2 = tasks.insert(k, task2);
    let shape2 = lemma_step_any(links, tasks, shape, k);
    assert(next.links == links2);
    lemma_phase_stepped(links, shape, shape2, s.poller->0, task);
    lemma_owed_kept(links, shape, links2, shape2, e, s.poller, s.owed);
    assert(owed_ok(links2, shape2, next.poller, next.owed)) by {
        if next.poller->0 is Register {
            assert forall|x: EntryPtr| #[trigger] next.owed.contains(x) implies shape2.listed(
                links2,
                x,
            ) && shape2.pos[x] < shape2.pos[EntryPtr::Buffer] by {
                assert(s.owed.contains(x));
                assert(shape.listed(links, x));
                assert(shape.listed(links, EntryPtr::Buffer));
            }
        }
    }
    lemma_marks_kept(task, links);
    if task2.stage is Done {
        lemma_remove_task(links2, tasks2, shape2, k);
        assert(next.tasks() =~= tasks2.remove(k));
    } else {
        assert(next.tasks() =~= tasks2);
    }
    assert(next.notified()) by {
        if next.slot is Some && next.links.is_entry(next.links.next[EntryPtr::Root])
            && next.links.next[EntryPtr::Root] != EntryPtr::Buffer {
            assert(s.links.next[EntryPtr::Root] == next.links.next[EntryPtr::Root]);
            let u = choose|u: int| #[trigger] s.will_wake(u);
            assert(next.will_wake(u));
        }
    }
    shape2
}

/// The other steps of a poll keep the invariant.
proof fn lemma_step_poll(s: System, next: System, shape: Shape) -> (shape2: Shape)
    requires
        s.inv(shape),
        s.moves(next, Move::StepPoll),
        poll_schedule(s.poller) is None,
    ensures
        next.inv(shape2),
{
    lemma_fits_facts(s.effective(), s.tasks(), shape);
    let links = s.links;
    let tasks = s.wakers;
    assert(s.tasks() == tasks);
    assert(next.wakers == s.wakers);
    match s.poller->0 {
        Polling::Register { .. } => {
            a_poll_stores_its_waker(s.poller->0, s.slot, s.asked->0, next.slot);
            shape
        },
        Polling::TakeBatch { intermediate } => {
            assert(EntryPtr::Root != links.last) by {
                lemma_below(links, tasks, shape, EntryPtr::Root, EntryPtr::Buffer);
            }
            let shape2 = lemma_pop_head(links, tasks, shape, EntryPtr::Root);
            let links2 = links.linked(EntryPtr::Root, EntryPtr::Null);
            lemma_add_task(links2, tasks, shape2, -1, EntryPtr::Root);
            assert(next.tasks() == tasks.insert(
                -1,
                Schedule { entry: EntryPtr::Root, stage: Stage::Claim },
            ));
            shape2
        },
        Polling::TakeBuffer { intermediate, first } => {
            lemma_keeps_notice(s, next);
            if intermediate == EntryPtr::Root {
                lemma_not_before_head(links, tasks, shape);
                lemma_pop_head(links, tasks, shape, EntryPtr::Buffer)
            } else {
                lemma_follows(links, tasks, shape, intermediate, EntryPtr::Buffer);
                let shape2 = lemma_take_out(
                    links,
                    tasks,
                    shape,
                    intermediate,
                    EntryPtr::Buffer,
                );
                assert(shape.listed(links, first) && first != EntryPtr::Buffer);
                assert(shape.listed(links, EntryPtr::Root));
                assert(shape.listed(links, intermediate));
                assert(shape.listed(links, links.last));
                assert(phase_ok(next.effective(), shape2, next.poller));
                assert forall|x: EntryPtr| #[trigger] next.owed.contains(x) implies shape2.listed(
                    next.effective(),
                    x,
                ) && shape2.pos[x] < shape2.pos[EntryPtr::Root] by {
                    assert(s.owed.contains(x));
                    assert(shape.listed(links, x));
                }
                shape2
            }
        },
        Polling::Bypass { .. } => {
            lemma_keeps_notice(s, next);
            shape
        },
        _ => {
            shape
        },
    }
}

/// No entry of the list stands before the first one.
proof fn lemma_not_before_head(links: Links, tasks: Map<int, Schedule>, shape: Shape)
    requires
        shape.fits(links, tasks),
    ensures
        forall|x: EntryPtr| #[trigger] shape.listed(links, x) ==> shape.pos[x] >= shape.head,
{
    reveal(Shape::fits);
}

/// An entry that is scheduled and that no undertaking has claimed stands up to the last one.
proof fn lemma_standing(s: System, shape: Shape)
    requires
        s.inv(shape),
        s.poller is None,
    ensures
        forall|x: EntryPtr| #[trigger] s.stands(x) ==> settled_at(s.links, shape, x),
{
    reveal(Shape::fits);
    assert forall|x: EntryPtr| #[trigger] s.stands(x) implies settled_at(s.links, shape, x) by {
        if shape.unsettled(s.links, x) {
            let t = shape.owner[x];
            assert(s.wakers.dom().contains(t) && claiming(s.wakers[t]) && s.wakers[t].entry == x);
        }
    }
}

/// A poll that registers stores a waker of its own task: a new one, unless the slot holds one that
/// answers that it wakes the same task. No other step touches the slot.
pub proof fn a_poll_stores_its_waker(
    polling: Polling,
    before: Option<Waker>,
    waker: Waker,
    after: Option<Waker>,
)
    requires
        polling.may_hold(before, waker, after),
    ensures
        polling is Register ==> {
            &&& after is Some
            &&& serves(after->0, waker)
            &&& cloned(waker, after->0) || (before is Some && after == before)
        },
        !(polling is Register) ==> after == before,
{
}

/// The first entry stands before every other one of the list, so it is not the last one.
proof fn lemma_below(
    links: Links,
    tasks: Map<int, Schedule>,
    shape: Shape,
    x: EntryPtr,
    y: EntryPtr,
)
    requires
        shape.fits(links, tasks),
        first_is(links, shape, x),
        settled_at(links, shape, y),
        x != y,
    ensures
        shape.pos[x] < shape.pos[y],
        x != links.last,
{
    reveal(Shape::fits);
    assert(shape.pos[x] != shape.pos[y]);
}

/// An entry that another one points to is not the first one.
proof fn lemma_follows(
    links: Links,
    tasks: Map<int, Schedule>,
    shape: Shape,
    w: EntryPtr,
    x: EntryPtr,
)
    requires
        shape.fits(links, tasks),
        shape.listed(links, w),
        shape.listed(links, x),
        links.next[w] == x,
    ensures
        shape.pos[x] > shape.head,
        shape.pos[x] == shape.pos[w] + 1,
{
    reveal(Shape::fits);
    assert(shape.pos[x] == shape.pos[w] + 1);
}

/// What a waker owes to the external waker it still owes if the link of the root entry stays.
proof fn lemma_keeps_notice(s: System, next: System)
    requires
        s.notified(),
        next.wakers == s.wakers,
        next.slot is Some ==> s.slot is Some,
        !(s.poller matches Some(Polling::TakeBatch { .. })),
        next.links.count == s.links.count,
        next.links.next[EntryPtr::Root] == s.links.next[EntryPtr::Root],
    ensures
        next.notified(),
{
    if next.slot is Some && next.links.is_entry(next.links.next[EntryPtr::Root])
        && next.links.next[EntryPtr::Root] != EntryPtr::Buffer {
        let u = choose|u: int| #[trigger] s.will_wake(u);
        assert(next.will_wake(u));
    }
}

/// The remaining moves of a poll keep the invariant.
proof fn lemma_other_poll(s: System, next: System, m: Move, shape: Shape) -> (shape2: Shape)
    requires
        s.inv(shape),
        s.moves(next, m),
        m is BeginPoll || m is RetryPoll || m is Walk,
    ensures
        next.inv(shape2),
{
    lemma_fits_facts(s.effective(), s.tasks(), shape);
    let links = s.links;
    let tasks = s.tasks();
    assert(links == s.effective());
    match m {
        Move::BeginPoll { .. } => {
            lemma_standing(s, shape);
            assert forall|x: EntryPtr| #[trigger] next.owed.contains(x) implies x is At
                && settled_at(links, shape, x) by {
                assert(s.stands(x));
            }
            lemma_keeps_notice(s, next);
            lemma_add_task(links, tasks, shape, -1, EntryPtr::Buffer);
            shape
        },
        Move::RetryPoll => {
            lemma_keeps_notice(s, next);
            let task = poll_schedule(s.poller)->0;
            lemma_step_retry(links, tasks, shape, -1);
            assert(next.tasks() =~= tasks.insert(-1, task.at(Stage::FindLast)));
            shape
        },
        Move::Walk => {
            let current = s.poller->0->current;
            lemma_keeps_notice(s, next);
            lemma_not_before_head(links, tasks, shape);
            if current == EntryPtr::Root {
                shape
            } else {
                lemma_below(links, tasks, shape, current, EntryPtr::Root);
                lemma_pop_head(links, tasks, shape, current)
            }
        },
        _ => shape,
    }
}

/// A new join fulfils the invariant.
proof fn lemma_initial(s: System, count: usize) -> (shape: Shape)
    requires
        s.initial(count),
    ensures
        s.inv(shape),
{
    let links = s.links;
    let shape = Shape {
        chain: Map::new(|x: EntryPtr| true, |x: EntryPtr| EntryPtr::Null),
        pos: Map::new(
            |x: EntryPtr| true,
            |x: EntryPtr|
                match x {
                    EntryPtr::At(i) => i + 1,
                    _ => 0,
                },
        ),
        head: 0,
        time: Map::new(|x: EntryPtr| true, |x: EntryPtr| 0),
        now: 0,
        owner: Map::new(|x: EntryPtr| true, |x: EntryPtr| 0),
    };
    assert(shape.fits(links, s.tasks())) by {
        reveal(Shape::fits);
        assert(shape.links_ok(links));
        assert forall|x: EntryPtr| links.marked(x) && #[trigger] shape.pos[x] > shape.start(
            shape.chain[x],
        ) implies shape.preceded(links, x) by {
            reveal(Shape::preceded);
            let i = x->At_0;
            if i == 0 {
                assert(links.next[EntryPtr::Root] == x);
            } else {
                assert(links.next[EntryPtr::At((i - 1) as usize)] == x);
            }
        }
        assert(shape.heads_ok(links));
    }
    shape
}

/// At each position of the list, up to the last entry, there is an entry.
proof fn lemma_no_gap(links: Links, shape: Shape, q: int)
    requires
        shape.links_ok(links),
        shape.heads_ok(links),
        shape.head <= q <= shape.pos[links.last],
    ensures
        exists|x: EntryPtr| #[trigger] shape.listed(links, x) && shape.pos[x] == q,
    decreases shape.pos[links.last] - q,
{
    if q == shape.pos[links.last] {
        assert(shape.listed(links, links.last));
    } else {
        lemma_no_gap(links, shape, q + 1);
        let x = choose|x: EntryPtr| #[trigger] shape.listed(links, x) && shape.pos[x] == q + 1;
        assert(shape.preceded(links, x));
        reveal(Shape::preceded);
        let w = choose|w: EntryPtr| links.is_entry(w) && #[trigger] links.next[w] == x;
        assert(shape.chain[x] == shape.chain[w] && shape.pos[x] == shape.pos[w] + 1);
        assert(shape.listed(links, w));
    }
}

/// The entry at a position of the list.
spec fn entry_at(links: Links, shape: Shape, q: int) -> EntryPtr {
    choose|x: EntryPtr| #[trigger] shape.listed(links, x) && shape.pos[x] == q
}

/// If no undertaking has claimed an entry, the chain from the first entry to the last one is all
/// that is scheduled.
#[verifier::spinoff_prover]
#[verifier::rlimit(50)]
proof fn lemma_whole(links: Links, tasks: Map<int, Schedule>, shape: Shape) -> (r: (
    Seq<EntryPtr>,
    Seq<EntryPtr>,
))
    requires
        shape.fits(links, tasks),
        settled_at(links, shape, EntryPtr::Root),
        links.next[EntryPtr::Buffer] == EntryPtr::Null,
        forall|k: int| #[trigger] tasks.dom().contains(k) ==> !claiming(tasks[k]),
    ensures
        links.represent(r.0, r.1),
        first_is(links, shape, Links::list(r.0, r.1)[0]),
        first_is(links, shape, EntryPtr::Root) ==> r.0.len() == 0,
{
    reveal(Shape::fits);
    let p = shape.pos[links.last];
    let n = (p - shape.head + 1) as nat;
    let list = Seq::new(n, |i: int| entry_at(links, shape, shape.head + i));
    assert forall|i: int| 0 <= i < n implies shape.listed(links, #[trigger] list[i])
        && shape.pos[list[i]] == shape.head + i by {
        lemma_no_gap(links, shape, shape.head + i);
    }
    let r = shape.pos[EntryPtr::Root] - shape.head;
    let batch = list.subrange(0, r);
    let waiting = list.subrange(r + 1, n as int);
    assert(list[r] == EntryPtr::Root) by {
        assert(shape.pos[list[r]] == shape.pos[EntryPtr::Root]);
    }
    assert(Links::list(batch, waiting) =~= list);
    assert(links.last == list.last()) by {
        assert(shape.pos[list[n - 1]] == shape.pos[links.last]);
    }
    assert(links.next[links.last] == links.end()) by {
        let y = links.next[links.last];
        if y != links.end() {
            assert(links.is_entry(y));
            assert(links.next[y] != EntryPtr::Null);
            assert(shape.pos[y] == p + 1);
            assert(shape.unsettled(links, y));
            assert(tasks.dom().contains(shape.owner[y]));
        }
    }
    assert forall|k: int, l: int| 0 <= k && l == k + 1 && l < list.len() implies links.next[
    #[trigger] list[k]] == #[trigger] list[l] by {
        let x = list[k];
        let y = links.next[x];
        assert(shape.listed(links, x));
        assert(shape.listed(links, list[l]));
        if y == links.end() {
            assert(shape.pos[list[l]] <= shape.pos[x]);
        } else {
            assert(links.is_entry(y));
            assert(links.next[y] != EntryPtr::Null);
            assert(shape.pos[y] == shape.pos[list[l]]);
        }
    }
    assert forall|x: EntryPtr|
        links.is_entry(x) && !list.contains(x) implies #[trigger] links.next[x]
        == EntryPtr::Null by {
        if links.next[x] != EntryPtr::Null {
            if shape.unsettled(links, x) {
                assert(tasks.dom().contains(shape.owner[x]));
            }
            assert(shape.pos[x] >= shape.head);
            let i = shape.pos[x] - shape.head;
            assert(shape.pos[list[i]] == shape.pos[x]);
            assert(list[i] == x);
        }
    }
    assert(list.no_duplicates()) by {
        assert forall|i: int, j: int|
            0 <= i < n && 0 <= j < n && i != j implies list[i] != list[j] by {
            assert(shape.pos[list[i]] != shape.pos[list[j]]);
        }
    }
    assert forall|k: int| 0 <= k < list.len() implies links.is_entry(#[trigger] list[k]) && list[k]
        != EntryPtr::Buffer by {
        assert(shape.listed(links, list[k]));
    }
    (batch, waiting)
}

/// The last entry of the list is not before its first one.
proof fn lemma_last_not_before(links: Links, tasks: Map<int, Schedule>, shape: Shape)
    requires
        shape.fits(links, tasks),
    ensures
        shape.pos[links.last] >= shape.head,
{
    reveal(Shape::fits);
}

/// The invariant makes a state safe.
proof fn lemma_safe(s: System, shape: Shape)
    requires
        s.inv(shape),
    ensures
        s.safe(),
{
    let links = s.effective();
    let tasks = s.tasks();
    lemma_fits_facts(links, tasks, shape);
    assert(s.in_bounds()) by {
        assert forall|t: int| #[trigger] s.wakers.dom().contains(t) implies s.wakers[t].in_bounds(
            s.links,
        ) by {
            assert(tasks.dom().contains(t));
        }
        if poll_schedule(s.poller) is Some {
            assert(tasks.dom().contains(-1));
        }
    }
    assert(s.wakes()) by {
        reveal(Shape::fits);
        if s.poller is None {
            assert(links.next[EntryPtr::Buffer] == EntryPtr::Null);
            assert(links.next[EntryPtr::Root] != EntryPtr::Buffer);
        }
    }
    assert(s.polls_come_to_all()) by {
        lemma_not_before_head(links, tasks, shape);
        if s.poller is None || s.poller == Some(Polling::Walk { current: EntryPtr::Root }) {
            assert(s.owed =~= Set::<EntryPtr>::empty());
        }
        assert forall|x: EntryPtr| #[trigger] s.owed.contains(x) implies s.links.marked(x) by {
            assert(links.marked(x));
        }
    }
    assert(s.buffer_shuts_the_root()) by {
        reveal(Shape::fits);
        if s.poller is Some && (s.poller->0 is Register || s.poller->0 is TakeBatch) {
            assert(shape.pos[EntryPtr::Buffer] != shape.pos[EntryPtr::Root]);
        }
    }
    assert(s.claims_are_exclusive()) by {
        reveal(Shape::fits);
        assert forall|t: int, u: int|
            #![trigger s.wakers[t], s.wakers[u]]
            s.wakers.dom().contains(t) && s.wakers.dom().contains(u) && t != u && claiming(
                s.wakers[t],
            ) && claiming(s.wakers[u]) implies s.wakers[t].entry != s.wakers[u].entry by {
            assert(tasks.dom().contains(t) && tasks.dom().contains(u));
        }
    }
    if s.quiet() {
        lemma_last_not_before(links, tasks, shape);
        let (batch, waiting) = lemma_whole(links, tasks, shape);
        assert(s.has_list(batch, waiting)) by {
            if let Some(Polling::Walk { current }) = s.poller {
                reveal(Shape::fits);
                assert(shape.pos[current] == shape.pos[Links::list(batch, waiting)[0]]);
            }
        }
    }
}

/// Something happens to the system at `k` of a course.
pub open spec fn moves_on(course: Seq<System>, k: int) -> bool {
    exists|m: Move| #[trigger] course[k].moves(course[k + 1], m)
}

/// A course that a join of `count` futures takes: each state comes from the one before by a move.
pub open spec fn is_course(course: Seq<System>, count: usize) -> bool {
    &&& course.len() > 0
    &&& course[0].initial(count)
    &&& forall|k: int| 0 <= k < course.len() - 1 ==> #[trigger] moves_on(course, k)
}

proof fn lemma_course(course: Seq<System>, count: usize, k: int) -> (shape: Shape)
    requires
        is_course(course, count),
        0 <= k < course.len(),
    ensures
        course[k].inv(shape),
    decreases k,
{
    if k == 0 {
        lemma_initial(course[0], count)
    } else {
        let shape = lemma_course(course, count, k - 1);
        assert(moves_on(course, k - 1));
        let s = course[k - 1];
        let next = course[k - 1 + 1];
        let m = choose|m: Move| #[trigger] s.moves(next, m);
        match m {
            Move::StepWake { t } => lemma_step_wake(s, next, t, shape),
            Move::BeginWake { .. } | Move::RetryWake { .. } | Move::EndWake { .. } => {
                lemma_other_wake(s, next, m, shape);
                shape
            },
            Move::StepPoll => if poll_schedule(s.poller) is Some {
                lemma_step_poll_schedule(s, next, shape)
            } else {
                lemma_step_poll(s, next, shape)
            },
            Move::BeginPoll { .. } | Move::RetryPoll | Move::Walk => lemma_other_poll(s, next, m, shape),
        }
    }
}

/// In whatever order the poll of a join and any number of wakers take their steps: no step reaches
/// outside the shared memory; no two wakers append the same entry; an entry that has been woken is
/// scheduled until a poll comes to it; a poll comes to every entry that stood in the list when it
/// began; whenever nobody is in the midst of changing the list, it holds every scheduled entry, once;
/// what a poll stores wakes its own task and stays until it is used; and no wake-up of the external
/// waker is lost.
///
/// A join that is dropped takes the steps of a poll up to the registration of the external waker,
/// and no more. So this holds of the wakers that outlive their join, too.
pub proof fn every_course_is_safe(course: Seq<System>, count: usize, k: int)
    requires
        is_course(course, count),
        0 <= k < course.len(),
    ensures
        course[k].safe(),
{
    let shape = lemma_course(course, count, k);
    lemma_safe(course[k], shape);
}

/// In whatever order the steps come, an undertaking that ends without having appended its entry found
/// it scheduled; and one that ends behind an entry has put its own behind it and made it the last
/// one. Either way the entry is scheduled then.
pub proof fn an_undertaking_ends_with_its_entry_scheduled(
    course: Seq<System>,
    count: usize,
    k: int,
    t: int,
)
    requires
        is_course(course, count),
        0 <= k < course.len() - 1,
        course[k].wakers.dom().contains(t),
        course[k + 1].wakers.dom().contains(t),
        !(course[k].wakers[t].stage is Done),
        course[k + 1].wakers[t].stage is Done,
    ensures
        ({
            let entry = course[k].wakers[t].entry;
            let before = course[k].links;
            let after = course[k + 1].links;
            &&& course[k + 1].wakers[t].entry == entry
            &&& after.marked(entry)
            &&& match course[k + 1].wakers[t].stage->behind {
                None => before.marked(entry) && after == before,
                Some(behind) => {
                    &&& after.is_entry(behind)
                    &&& after.next[behind] == entry
                    &&& after.last == entry
                    &&& before.last == behind
                },
            }
        }),
{
    let shape = lemma_course(course, count, k);
    let s = course[k];
    let next = course[k + 1];
    assert(moves_on(course, k));
    let m = choose|m: Move| #[trigger] s.moves(next, m);
    assert(m == Move::StepWake { t });
    lemma_fits_facts(s.effective(), s.tasks(), shape);
    assert(s.tasks().dom().contains(t) && s.tasks()[t] == s.wakers[t]);
    lemma_bypass_apart(s, shape);
}

/// While the gap of the buffer entry is being closed, the last entry is not at that gap.
proof fn lemma_bypass_apart(s: System, shape: Shape)
    requires
        s.inv(shape),
    ensures
        s.links.next[s.links.last] == s.effective().next[s.links.last],
        s.poller matches Some(Polling::Bypass { intermediate, next, .. }) ==> {
            &&& s.links.next[intermediate] == EntryPtr::Buffer
            &&& s.effective().next[intermediate] == next
            &&& s.links.last != intermediate
            &&& shape.pos[next] <= shape.pos[s.links.last]
        },
{
    reveal(Shape::fits);
    if let Some(Polling::Bypass { intermediate, first, next }) = s.poller {
        let links = s.effective();
        assert(shape.listed(links, intermediate));
        assert(shape.listed(links, EntryPtr::Root));
        assert(links.next[next] != EntryPtr::Null);
        assert(shape.pos[next] == shape.pos[intermediate] + 1);
    }
}

/// Whether an undertaking comes to its end in at most `n` steps if nothing else comes in between.
pub open spec fn ends_alone(schedule: Schedule, links: Links, n: nat) -> bool
    decreases n,
{
    ||| schedule.stage is Done
    ||| n > 0 && ends_alone(
        schedule.stepped(links).0,
        schedule.stepped(links).1,
        (n - 1) as nat,
    )
}

impl System {
    /// An undertaking of a waker, or that of the poll, has claimed its entry.
    pub open spec fn is_busy(self) -> bool {
        ||| exists|t: int| #[trigger]
            self.wakers.dom().contains(t) && claiming(self.wakers[t])
        ||| poll_schedule(self.poller) is Some && claiming(poll_schedule(self.poller)->0)
    }

    /// One of these would come to its end in at most four steps.
    pub open spec fn can_advance(self) -> bool {
        ||| exists|t: int| #[trigger]
            self.wakers.dom().contains(t) && claiming(self.wakers[t]) && ends_alone(
                self.wakers[t],
                self.links,
                4,
            )
        ||| poll_schedule(self.poller) is Some && claiming(poll_schedule(self.poller)->0)
            && ends_alone(poll_schedule(self.poller)->0, self.links, 4)
    }
}

/// If something stands behind the last entry, the one that put it there can go on at once.
proof fn lemma_publisher(links: Links, tasks: Map<int, Schedule>, shape: Shape) -> (t: int)
    requires
        shape.fits(links, tasks),
        links.next[links.last] != links.end(),
    ensures
        tasks.dom().contains(t),
        tasks[t].stage == (Stage::Publish { last: links.last }),
{
    reveal(Shape::fits);
    let l = links.last;
    let y = links.next[l];
    assert(shape.listed(links, l));
    assert(links.is_entry(y));
    assert(links.next[y] != EntryPtr::Null);
    assert(shape.chain[y] == EntryPtr::Null && shape.pos[y] == shape.pos[l] + 1);
    assert(shape.unsettled(links, y));
    let t = shape.owner[y];
    assert(tasks.dom().contains(t));
    let w = tasks[t].stage->Publish_last;
    assert(links.next[w] == y);
    assert(shape.chain[y] == shape.chain[w] && shape.pos[y] == shape.pos[w] + 1);
    assert(links.marked(w));
    assert(shape.pos[w] == shape.pos[l]);
    t
}

/// If nothing stands behind the last entry, whoever cannot go on waits for one that claimed later.
proof fn lemma_awaited(links: Links, tasks: Map<int, Schedule>, shape: Shape, u: int) -> (t: int)
    requires
        shape.fits(links, tasks),
        links.next[links.last] == links.end(),
        tasks.dom().contains(u),
        claiming(tasks[u]),
        tasks[u].stage is Publish || (tasks[u].stage is Link && tasks[u].stage->Link_last
            != links.last && links.next[tasks[u].stage->Link_last] == links.end()),
    ensures
        tasks.dom().contains(t),
        claiming(tasks[t]),
        shape.time[tasks[u].entry] < shape.time[tasks[t].entry] <= shape.now,
{
    reveal(Shape::fits);
    let e = tasks[u].entry;
    let l = links.last;
    assert(shape.listed(links, l));
    if tasks[u].stage is Publish {
        assert(shape.unsettled(links, e));
        if shape.chain[e] == EntryPtr::Null {
            assert(shape.pos[e] <= shape.pos[l]);
        }
        let h = shape.chain[e];
        assert(links.marked(h) && shape.chain[h] == h && shape.pos[h] <= shape.pos[e]);
        assert(shape.pos[h] != shape.pos[e]);
        assert(shape.time[h] > shape.time[e]);
        assert(shape.unsettled(links, h));
        assert(shape.time[h] <= shape.now);
        shape.owner[h]
    } else {
        let w = tasks[u].stage->Link_last;
        assert(links.is_entry(w));
        assert(links.marked(w));
        if shape.chain[w] == EntryPtr::Null {
            assert(shape.pos[w] <= shape.pos[l]);
            assert(shape.pos[l] <= shape.pos[w]);
        }
        assert(shape.time[w] > shape.time[e]);
        let h = shape.chain[w];
        assert(links.marked(h) && shape.chain[h] == h && shape.pos[h] <= shape.pos[w]);
        if h != w {
            assert(shape.pos[h] != shape.pos[w]);
            assert(shape.time[h] > shape.time[w]);
        }
        assert(shape.unsettled(links, h));
        assert(shape.time[h] <= shape.now);
        shape.owner[h]
    }
}

/// What one undertaking that has claimed its entry needs to come to its end.
proof fn lemma_ends_alone(schedule: Schedule, links: Links)
    requires
        claiming(schedule),
        links.is_entry(schedule.entry),
        match schedule.stage {
            Stage::Publish { last } => links.last == last,
            Stage::Link { last } => links.next[links.last] == links.end() && (last == links.last
                || links.next[last] != links.end()),
            _ => links.next[links.last] == links.end(),
        },
    ensures
        ends_alone(schedule, links, 4),
{
    reveal_with_fuel(ends_alone, 5);
}

/// From any undertaking that has claimed its entry one comes to one that can go on.
proof fn lemma_advances(s: System, shape: Shape, u: int)
    requires
        s.inv(shape),
        s.tasks().dom().contains(u),
        claiming(s.tasks()[u]),
    ensures
        s.can_advance(),
    decreases shape.now - shape.time[s.tasks()[u].entry],
{
    let links = s.effective();
    let tasks = s.tasks();
    lemma_fits_facts(links, tasks, shape);
    lemma_bypass_apart(s, shape);
    let l = s.links.last;
    if links.next[l] != links.end() {
        let t = lemma_publisher(links, tasks, shape);
        lemma_ends_alone(tasks[t], s.links);
        lemma_one_advances(s, t);
    } else if tasks[u].stage is Publish || (tasks[u].stage is Link && tasks[u].stage->Link_last
        != links.last && s.links.next[tasks[u].stage->Link_last] == links.end()) {
        if tasks[u].stage is Link {
            assert(links.next[tasks[u].stage->Link_last] == links.end());
        }
        let t = lemma_awaited(links, tasks, shape, u);
        lemma_advances(s, shape, t);
    } else {
        lemma_ends_alone(tasks[u], s.links);
        lemma_one_advances(s, u);
    }
}

/// One that can go on is an undertaking of a waker, or that of the poll.
proof fn lemma_one_advances(s: System, t: int)
    requires
        s.tasks().dom().contains(t),
        claiming(s.tasks()[t]),
        ends_alone(s.tasks()[t], s.links, 4),
    ensures
        s.can_advance(),
{
    if poll_schedule(s.poller) is Some && t == -1 {
    } else {
        assert(s.wakers.dom().contains(t));
    }
}

/// In whatever order the steps come, they never end in a standstill: as long as an undertaking has
/// claimed its entry and is not over, there is one that comes to its end in a few steps of its own.
pub proof fn no_course_comes_to_a_standstill(course: Seq<System>, count: usize, k: int)
    requires
        is_course(course, count),
        0 <= k < course.len(),
        course[k].is_busy(),
    ensures
        course[k].can_advance(),
{
    let shape = lemma_course(course, count, k);
    let s = course[k];
    if poll_schedule(s.poller) is Some && claiming(poll_schedule(s.poller)->0) {
        assert(s.tasks().dom().contains(-1));
        lemma_advances(s, shape, -1);
    } else {
        let t = choose|t: int| #[trigger] s.wakers.dom().contains(t) && claiming(s.wakers[t]);
        assert(s.tasks().dom().contains(t));
        assert(s.tasks()[t] == s.wakers[t]);
        lemma_advances(s, shape, t);
    }
}

/// The number of stages that a poll has before it.
pub open spec fn stages_left(polling: Polling) -> nat {
    match polling {
        Polling::EnterBuffer { .. } => 6,
        Polling::Register { .. } => 5,
        Polling::TakeBatch { .. } => 4,
        Polling::EnterRoot { .. } => 3,
        Polling::TakeBuffer { .. } => 2,
        Polling::Bypass { .. } => 1,
        Polling::Walk { .. } => 0,
    }
}

/// Every step of a poll brings it nearer to its batch, but for those in which it appends an entry;
/// these end when the undertaking to append it does.
pub proof fn a_poll_comes_to_its_batch(polling: Polling, links: Links)
    requires
        !(polling is Walk),
    ensures
        match poll_schedule(Some(polling)) {
            None => stages_left(polling.stepped(links).0) < stages_left(polling),
            Some(schedule) => if schedule.stepped(links).0.stage matches Stage::Done {
                behind: Some(_),
            } {
                stages_left(polling.stepped(links).0) < stages_left(polling)
            } else {
                polling is EnterBuffer ==> polling.stepped(links).0 == with_schedule(
                    polling,
                    schedule.stepped(links).0,
                )
            },
        },
{
}

} // verus!
