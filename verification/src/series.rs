//! Observations grouped by session: what each session showed, in the order it was recorded.

use vstd::prelude::*;

verus! {

/// A moment and the value observed at it.
pub type Point = (i64, i64);

/// An observation of one session, by the session's key.
pub type Event = (Seq<char>, Point);

/// The observations of the session `key`, in order.
pub open spec fn points_of(events: Seq<Event>, key: Seq<char>) -> Seq<Point>
    decreases events.len(),
{
    if events.len() == 0 {
        Seq::empty()
    } else {
        let before = points_of(events.drop_last(), key);
        if events.last().0 == key {
            before.push(events.last().1)
        } else {
            before
        }
    }
}

/// The sessions observed, each once, in order of first appearance.
pub open spec fn keys_in(events: Seq<Event>) -> Seq<Seq<char>>
    decreases events.len(),
{
    if events.len() == 0 {
        Seq::empty()
    } else {
        let before = keys_in(events.drop_last());
        if before.contains(events.last().0) {
            before
        } else {
            before.push(events.last().0)
        }
    }
}

pub proof fn lemma_keys_distinct(events: Seq<Event>)
    ensures
        keys_in(events).no_duplicates(),
    decreases events.len(),
{
    if events.len() > 0 {
        lemma_keys_distinct(events.drop_last());
    }
}

/// A session has observations exactly if it is among those observed.
pub proof fn lemma_keys_have_points(events: Seq<Event>, key: Seq<char>)
    ensures
        keys_in(events).contains(key) <==> points_of(events, key).len() > 0,
    decreases events.len(),
{
    if events.len() > 0 {
        let before = keys_in(events.drop_last());
        let last = events.last().0;
        lemma_keys_have_points(events.drop_last(), key);
        if !before.contains(last) {
            assert(before.push(last)[before.len() as int] == last);
            if before.contains(key) {
                let i = before.index_of(key);
                assert(before.push(last)[i] == key);
            }
        }
    }
}

/// What a session showed is exactly what was observed of it.
pub proof fn lemma_points_are_events(events: Seq<Event>, key: Seq<char>, p: Point)
    ensures
        points_of(events, key).contains(p) <==> events.contains((key, p)),
    decreases events.len(),
{
    if events.len() > 0 {
        let head = events.drop_last();
        let before = points_of(head, key);
        lemma_points_are_events(head, key, p);
        assert(events =~= head.push(events.last()));
        lemma_push_contains(head, events.last(), (key, p));
        lemma_push_contains(before, events.last().1, p);
    }
}

/// A sequence with one more element holds what it held, and that element.
pub proof fn lemma_push_contains<A>(s: Seq<A>, a: A, x: A)
    ensures
        s.push(a).contains(x) <==> s.contains(x) || x == a,
{
    assert(s.push(a)[s.len() as int] == a);
    if s.contains(x) {
        let i = s.index_of(x);
        assert(s.push(a)[i] == x);
    }
}

pub struct Series {
    pub key: String,
    pub points: Vec<Point>,
}

/// Observations grouped by session.
pub struct BySession {
    items: Vec<Series>,
    events: Ghost<Seq<Event>>,
}

impl BySession {
    /// Everything observed, in order.
    pub closed spec fn view(&self) -> Seq<Event> {
        self.events@
    }

    /// One series for each session observed, in order of first appearance, holding that
    /// session's observations.
    pub closed spec fn wf(&self) -> bool {
        &&& self.items@.len() == keys_in(self.events@).len()
        &&& forall|j: int|
            #![trigger self.items@[j]]
            0 <= j < self.items@.len() ==> {
                &&& self.items@[j].key@ == keys_in(self.events@)[j]
                &&& self.items@[j].points@ == points_of(self.events@, keys_in(self.events@)[j])
            }
    }

    pub fn new() -> (r: Self)
        ensures
            r.wf(),
            r@ == Seq::<Event>::empty(),
    {
        BySession { items: Vec::new(), events: Ghost(Seq::empty()) }
    }

    fn find(&self, key: &str) -> (r: Option<usize>)
        requires
            self.wf(),
        ensures
            match r {
                Some(j) => j < self.items@.len() && self.items@[j as int].key@ == key@,
                None => !keys_in(self@).contains(key@),
            },
    {
        let wanted: String = key.to_owned();
        let mut j: usize = 0;
        while j < self.items.len()
            invariant
                j <= self.items@.len(),
                self.wf(),
                wanted@ == key@,
                forall|k: int| 0 <= k < j ==> (#[trigger] self.items@[k]).key@ != key@,
            decreases self.items@.len() - j,
        {
            if self.items[j].key == wanted {
                return Some(j);
            }
            j = j + 1;
        }
        proof {
            if keys_in(self@).contains(key@) {
                let k = keys_in(self@).index_of(key@);
                assert(self.items@[k].key@ == key@);
            }
        }
        None
    }

    /// Records one observation.
    pub fn add(&mut self, key: &str, t: i64, v: i64)
        requires
            old(self).wf(),
        ensures
            final(self).wf(),
            final(self)@ == old(self)@.push((key@, (t, v))),
    {
        let ghost old_events = self.events@;
        let ghost keys = keys_in(old_events);
        let ghost events = old_events.push((key@, (t, v)));
        proof {
            lemma_keys_distinct(old_events);
            assert(events.drop_last() =~= old_events);
            lemma_keys_have_points(old_events, key@);
        }
        match self.find(key) {
            Some(j) => {
                self.items[j].points.push((t, v));
                proof {
                    assert(keys[j as int] == key@);
                    assert(keys.contains(key@));
                }
            },
            None => {
                let mut points: Vec<Point> = Vec::new();
                points.push((t, v));
                self.items.push(Series { key: key.to_owned(), points });
                assert(points_of(old_events, key@) =~= Seq::empty());
                assert(points_of(events, key@) =~= seq![(t, v)]);
            },
        }
        self.events = Ghost(events);
        assert forall|k: int| 0 <= k < self.items@.len() implies {
            &&& (#[trigger] self.items@[k]).key@ == keys_in(events)[k]
            &&& self.items@[k].points@ == points_of(events, keys_in(events)[k])
        } by {
            if k < keys.len() && keys[k] != key@ {
                assert(points_of(events, keys[k]) == points_of(old_events, keys[k]));
            }
        }
    }

    /// The observations of one session; `None` for a session never observed.
    pub fn points(&self, key: &str) -> (r: Option<&Vec<Point>>)
        requires
            self.wf(),
        ensures
            match r {
                Some(v) => v@ == points_of(self@, key@) && v@.len() > 0,
                None => points_of(self@, key@) == Seq::<Point>::empty(),
            },
    {
        match self.find(key) {
            Some(j) => {
                proof {
                    assert(keys_in(self@)[j as int] == key@);
                    assert(keys_in(self@).contains(key@));
                    lemma_keys_have_points(self@, key@);
                }
                Some(&self.items[j].points)
            },
            None => {
                proof {
                    lemma_keys_have_points(self@, key@);
                    assert(points_of(self@, key@) =~= Seq::<Point>::empty());
                }
                None
            },
        }
    }

    /// How many sessions were observed.
    pub fn len(&self) -> (n: usize)
        requires
            self.wf(),
        ensures
            n == keys_in(self@).len(),
    {
        self.items.len()
    }

    /// The `j`th session observed, and what it showed.
    pub fn series(&self, j: usize) -> (r: &Series)
        requires
            self.wf(),
            j < keys_in(self@).len(),
        ensures
            r.key@ == keys_in(self@)[j as int],
            r.points@ == points_of(self@, r.key@),
            r.points@.len() > 0,
    {
        proof {
            lemma_keys_have_points(self@, keys_in(self@)[j as int]);
            assert(keys_in(self@).contains(keys_in(self@)[j as int]));
        }
        &self.items[j]
    }
}

} // verus!
