//! The batch sink's rules: serialized records queue up, and the queue is
//! flushed as one bulk payload either the moment it reaches its capacity --
//! which also resets the timer -- or when the timer fires. Serving the
//! timer, carrying events over a channel and sending the payload happen
//! outside; a flush that the remote end loses is dropped for good, never
//! retried.

use crate::json::push_char;
use crate::json::push_str_to;
use vstd::prelude::*;

verus! {

/// What reaches the batch sink: one serialized record, or the timer firing.
#[derive(Debug, Clone, PartialEq)]
pub enum Event {
    Chunk(String),
    Timeout,
}

/// The spec-level image of a batch event.
pub ghost enum EventB {
    Chunk(Seq<char>),
    Timeout,
}

impl View for Event {
    type V = EventB;

    open spec fn view(&self) -> EventB {
        match self {
            Event::Chunk(s) => EventB::Chunk(s@),
            Event::Timeout => EventB::Timeout,
        }
    }
}

/// The bulk payload for the queued items from slot `i` on: a fixed
/// action-header line, the item's text and a newline, once per item.
pub open spec fn body_s(queue: Seq<Seq<char>>, i: int) -> Seq<char>
    decreases queue.len() - i,
{
    if 0 <= i < queue.len() {
        "{\"index\":{}}\n"@ + queue[i] + seq!['\n'] + body_s(queue, i + 1)
    } else {
        Seq::empty()
    }
}

/// What one event does to a queue of the given capacity: a chunk joins the
/// queue, and a queue that thereby reaches the capacity is flushed at once,
/// resetting the timer; a timeout flushes whatever is queued, an empty
/// flush being no flush at all. The results are the new queue, the payload
/// to send if there is one, and whether the timer is to be reset.
pub open spec fn step_s(queue: Seq<Seq<char>>, limit: int, ev: EventB) -> (
    Seq<Seq<char>>,
    Option<Seq<char>>,
    bool,
) {
    match ev {
        EventB::Chunk(c) => {
            let q2 = queue.push(c);
            if q2.len() >= limit {
                (Seq::empty(), Option::Some(body_s(q2, 0)), true)
            } else {
                (q2, Option::None, false)
            }
        },
        EventB::Timeout => {
            if queue.len() == 0 {
                (queue, Option::None, false)
            } else {
                (Seq::empty(), Option::Some(body_s(queue, 0)), false)
            }
        },
    }
}

/// The spec-level state of a batch sink.
pub ghost struct BatchView {
    pub queue: Seq<Seq<char>>,
    pub limit: int,
}

/// The batch sink's state: the queued serialized records and the capacity
/// at which a flush no longer waits for the timer.
pub struct ElasticsearchOutput {
    queue: Vec<String>,
    limit: usize,
}

impl View for ElasticsearchOutput {
    type V = BatchView;

    closed spec fn view(&self) -> BatchView {
        BatchView { queue: Seq::new(self.queue@.len(), |i: int| self.queue@[i]@), limit: self.limit as int }
    }
}

impl ElasticsearchOutput {
    /// A batch sink with the given capacity and nothing queued.
    pub fn new(limit: usize) -> (r: ElasticsearchOutput)
        ensures
            r@.queue == Seq::<Seq<char>>::empty(),
            r@.limit == limit,
    {
        let r = ElasticsearchOutput { queue: Vec::new(), limit: limit };
        proof {
            assert(r@.queue =~= Seq::<Seq<char>>::empty());
        }
        r
    }

    /// The bulk payload for the queued items.
    pub fn make_body(queue: &Vec<String>) -> (r: String)
        ensures
            r@ == body_s(Seq::new(queue@.len(), |i: int| queue@[i]@), 0),
    {
        let ghost qv = Seq::new(queue@.len(), |i: int| queue@[i]@);
        let mut data = String::new();
        let mut i: usize = 0;
        proof {
            assert(data@ + body_s(qv, 0) =~= body_s(qv, 0));
        }
        while i < queue.len()
            invariant
                qv == Seq::new(queue@.len(), |j: int| queue@[j]@),
                0 <= i <= queue@.len(),
                data@ + body_s(qv, i as int) == body_s(qv, 0),
            decreases queue@.len() - i,
        {
            push_str_to(&mut data, "{\"index\":{}}\n");
            push_str_to(&mut data, queue[i].as_str());
            push_char(&mut data, '\n');
            proof {
                assert(qv[i as int] == queue@[i as int]@);
                assert(data@ + body_s(qv, i as int + 1) =~= body_s(qv, 0)) by {
                    assert(body_s(qv, i as int) == "{\"index\":{}}\n"@ + qv[i as int] + seq!['\n']
                        + body_s(qv, i as int + 1));
                }
            }
            i = i + 1;
        }
        proof {
            assert(body_s(qv, queue@.len() as int) =~= Seq::<char>::empty());
            assert(data@ =~= body_s(qv, 0));
        }
        data
    }

    /// One event's effect: exactly what `step_s` says, the payload to send
    /// and the timer-reset signal handed back to the caller.
    pub fn handle(&mut self, ev: Event) -> (r: (Option<String>, bool))
        ensures
            final(self)@.limit == old(self)@.limit,
            final(self)@.queue == step_s(old(self)@.queue, old(self)@.limit, ev@).0,
            r.1 == step_s(old(self)@.queue, old(self)@.limit, ev@).2,
            (match r.0 {
                Option::Some(s) => step_s(old(self)@.queue, old(self)@.limit, ev@).1
                    == Option::Some(s@),
                Option::None => step_s(old(self)@.queue, old(self)@.limit, ev@).1 is None,
            }),
    {
        match ev {
            Event::Chunk(c) => {
                let ghost q0 = self@.queue;
                let ghost cv = c@;
                self.queue.push(c);
                proof {
                    assert(self@.queue =~= q0.push(cv));
                }
                if self.queue.len() >= self.limit {
                    let body = Self::make_body(&self.queue);
                    self.queue = Vec::new();
                    proof {
                        assert(self@.queue =~= Seq::<Seq<char>>::empty());
                    }
                    (Option::Some(body), true)
                } else {
                    (Option::None, false)
                }
            },
            Event::Timeout => {
                if self.queue.len() == 0 {
                    proof {
                        assert(self@.queue =~= old(self)@.queue);
                    }
                    (Option::None, false)
                } else {
                    let body = Self::make_body(&self.queue);
                    self.queue = Vec::new();
                    proof {
                        assert(self@.queue =~= Seq::<Seq<char>>::empty());
                    }
                    (Option::Some(body), false)
                }
            },
        }
    }
}

/// The state and the number of flushes after feeding a run of chunks, from
/// slot `i` on.
pub open spec fn run_chunks(queue: Seq<Seq<char>>, limit: int, chunks: Seq<Seq<char>>, i: int) -> (
    Seq<Seq<char>>,
    int,
)
    decreases chunks.len() - i,
{
    if 0 <= i < chunks.len() {
        let st = step_s(queue, limit, EventB::Chunk(chunks[i]));
        let rest = run_chunks(st.0, limit, chunks, i + 1);
        (
            rest.0,
            rest.1 + (if st.1 is Some {
                1int
            } else {
                0
            }),
        )
    } else {
        (queue, 0)
    }
}

/// Fewer records than the capacity flush nothing by themselves: they all
/// wait in the queue, and the timeout then flushes exactly once, with every
/// queued item in the one payload.
pub proof fn lemma_below_capacity_flushes_once_on_timeout(limit: int, chunks: Seq<Seq<char>>)
    requires
        0 < chunks.len() < limit,
    ensures
        run_chunks(Seq::empty(), limit, chunks, 0) == (chunks, 0int),
        step_s(chunks, limit, EventB::Timeout) == (
            Seq::<Seq<char>>::empty(),
            Option::Some(body_s(chunks, 0)),
            false,
        ),
{
    lemma_run_below(Seq::empty(), limit, chunks, 0);
    assert(Seq::<Seq<char>>::empty() + chunks =~= chunks);
}

proof fn lemma_run_below(queue: Seq<Seq<char>>, limit: int, chunks: Seq<Seq<char>>, i: int)
    requires
        0 <= i <= chunks.len(),
        queue.len() + (chunks.len() - i) < limit,
    ensures
        run_chunks(queue, limit, chunks, i) == (queue + chunks.skip(i), 0int),
    decreases chunks.len() - i,
{
    if i < chunks.len() {
        let st = step_s(queue, limit, EventB::Chunk(chunks[i]));
        lemma_run_below(queue.push(chunks[i]), limit, chunks, i + 1);
        assert(queue.push(chunks[i]) + chunks.skip(i + 1) =~= queue + chunks.skip(i));
    } else {
        assert(queue + chunks.skip(i) =~= queue);
    }
}

/// A record that fills the queue to its capacity flushes immediately, with
/// every queued item in the one payload, and resets the timer so the next
/// timeout does not fire redundantly.
pub proof fn lemma_at_capacity_flushes_immediately(queue: Seq<Seq<char>>, limit: int, c: Seq<char>)
    requires
        queue.len() + 1 >= limit,
    ensures
        step_s(queue, limit, EventB::Chunk(c)) == (
            Seq::<Seq<char>>::empty(),
            Option::Some(body_s(queue.push(c), 0)),
            true,
        ),
{
}

} // verus!
