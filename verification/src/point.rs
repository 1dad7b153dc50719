use vstd::prelude::*;
use vstd::string::*;
use crate::log::Location;

verus! {

/// The character of decimal digit `d`.
pub open spec fn digit_char(d: nat) -> char {
    (48 + d) as char
}

/// `n` written in decimal, without leading zeros.
pub open spec fn decimal(n: nat) -> Seq<char>
    decreases n,
{
    if n < 10 {
        seq![digit_char(n)]
    } else {
        decimal(n / 10).push(digit_char(n % 10))
    }
}

/// The one-character text of decimal digit `d`.
fn digit_text(d: u32) -> (r: &'static str)
    requires
        d < 10,
    ensures
        r@ == seq![digit_char(d as nat)],
{
    let digits = "0123456789";
    proof {
        reveal_strlit("0123456789");
    }
    let r = digits.substring_char(d as usize, d as usize + 1);
    proof {
        assert(r@ =~= seq![digit_char(d as nat)]);
    }
    r
}

/// `n` in decimal, as text.
pub fn decimal_text(n: u32) -> (r: String)
    ensures
        r@ == decimal(n as nat),
    decreases n,
{
    if n < 10 {
        String::from_str(digit_text(n))
    } else {
        let mut r = decimal_text(n / 10);
        r.append(digit_text(n % 10));
        r
    }
}

/// The text of a trace point: where it was traced, then its message.
pub open spec fn point_message(location: Location, message: Seq<char>) -> Seq<char> {
    location.module@ + " at "@ + location.file@ + "("@ + decimal(location.line as nat) + "): "@
        + message
}

/// What is left of the trace points `points` once the point with id `id` is untraced: every
/// point from the last down to that one is taken off.
pub open spec fn untraced(points: Seq<(usize, Seq<char>)>, id: usize) -> Seq<(usize, Seq<char>)>
    decreases points.len(),
{
    if points.len() == 0 {
        points
    } else if points.last().0 == id {
        points.drop_last()
    } else {
        untraced(points.drop_last(), id)
    }
}

/// Whether a point with id `id` is among `points`.
pub open spec fn holds_id(points: Seq<(usize, Seq<char>)>, id: usize) -> bool {
    exists|i: int| 0 <= i < points.len() && (#[trigger] points[i]).0 == id
}

/// Trace points as a manager hands them out: their ids rise from first to last and all lie
/// below `next_id`.
pub open spec fn ordered(points: Seq<(usize, Seq<char>)>, next_id: usize) -> bool {
    &&& forall|i: int, j: int| 0 <= i < j < points.len() ==> (#[trigger] points[i]).0 < (#[trigger] points[j]).0
    &&& forall|i: int| 0 <= i < points.len() ==> (#[trigger] points[i]).0 < next_id
}

/// The report of trace points: a heading, then one line per point.
pub open spec fn report(points: Seq<(usize, Seq<char>)>) -> Seq<char>
    decreases points.len(),
{
    if points.len() == 0 {
        "Trace points:"@
    } else {
        report(points.drop_last()) + "\n"@ + points.last().1
    }
}

/// What untracing leaves is always a prefix of the points it started from.
pub proof fn lemma_untraced_is_prefix(points: Seq<(usize, Seq<char>)>, id: usize)
    ensures
        untraced(points, id).len() <= points.len(),
        untraced(points, id) == points.take(untraced(points, id).len() as int),
    decreases points.len(),
{
    if points.len() == 0 {
        assert(points.take(0) =~= points);
    } else if points.last().0 == id {
        assert(points.drop_last() =~= points.take(points.len() - 1));
    } else {
        lemma_untraced_is_prefix(points.drop_last(), id);
        let k = untraced(points, id).len() as int;
        assert(points.drop_last().take(k) =~= points.take(k));
    }
}

/// A prefix of points in order is in order.
proof fn lemma_ordered_take(points: Seq<(usize, Seq<char>)>, next_id: usize, k: int)
    requires
        ordered(points, next_id),
        0 <= k <= points.len(),
    ensures
        ordered(points.take(k), next_id),
{
    assert forall|i: int, j: int| 0 <= i < j < k implies (#[trigger] points.take(k)[i]).0 < (
    #[trigger] points.take(k)[j]).0 by {
        assert(points.take(k)[i] == points[i] && points.take(k)[j] == points[j]);
    }
    assert forall|i: int| 0 <= i < k implies (#[trigger] points.take(k)[i]).0 < next_id by {
        assert(points.take(k)[i] == points[i]);
    }
}

/// Untracing a point takes off that point and every point traced after it, and keeps every
/// point traced before it.
pub proof fn lemma_untrace_keeps_earlier(points: Seq<(usize, Seq<char>)>, next_id: usize, i: int)
    requires
        ordered(points, next_id),
        0 <= i < points.len(),
    ensures
        untraced(points, points[i].0) == points.take(i),
    decreases points.len(),
{
    if i == points.len() - 1 {
        assert(points.drop_last() =~= points.take(i));
    } else {
        let rest = points.drop_last();
        assert(points.last() == points[points.len() - 1]);
        assert(rest[i] == points[i]);
        lemma_ordered_take(points, next_id, points.len() - 1);
        assert(rest =~= points.take(points.len() - 1));
        lemma_untrace_keeps_earlier(rest, next_id, i);
        assert(rest.take(i) =~= points.take(i));
    }
}

/// Untracing the point that was traced last gives back the points as they were before it was
/// traced.
pub proof fn lemma_untrace_undoes_trace(points: Seq<(usize, Seq<char>)>, id: usize, text: Seq<char>)
    ensures
        untraced(points.push((id, text)), id) == points,
{
    assert(points.push((id, text)).drop_last() =~= points);
}

/// A point of the trace: its id and its text.
#[derive(Debug)]
pub struct Point {
    id: usize,
    message: String,
}

/// A handle on a trace point, to be untraced when the work it marks is done.
#[derive(Debug)]
pub struct PointRef {
    id: usize,
}

impl PointRef {
    pub closed spec fn id_view(&self) -> usize {
        self.id
    }

    /// The id of the point this handle stands for.
    pub fn id(&self) -> (r: usize)
        ensures
            r == self.id_view(),
    {
        self.id
    }
}

/// The stack of trace points, with the id the next point gets.
#[derive(Debug)]
pub struct Manager {
    traces: Vec<Point>,
    next_id: usize,
}

impl Manager {
    /// The trace points, oldest first, each as its id and its text.
    pub closed spec fn points(&self) -> Seq<(usize, Seq<char>)> {
        self.traces@.map_values(|p: Point| (p.id, p.message@))
    }

    pub closed spec fn next_id_view(&self) -> usize {
        self.next_id
    }

    /// The ids of the points are in order and below the next id.
    pub open spec fn wf(&self) -> bool {
        ordered(self.points(), self.next_id_view())
    }

    /// A manager with no trace points, whose first point gets id 0.
    pub fn new() -> (r: Manager)
        ensures
            r.points() == Seq::<(usize, Seq<char>)>::empty(),
            r.next_id_view() == 0,
            r.wf(),
    {
        let r = Manager { traces: Vec::new(), next_id: 0 };
        proof {
            assert(r.points() =~= Seq::<(usize, Seq<char>)>::empty());
        }
        r
    }

    /// The id the next trace point gets.
    pub fn next_id(&self) -> (r: usize)
        ensures
            r == self.next_id_view(),
    {
        self.next_id
    }

    /// Whether a point with id `id` is on the trace.
    pub fn holds(&self, id: usize) -> (r: bool)
        ensures
            r == holds_id(self.points(), id),
    {
        let mut i: usize = 0;
        while i < self.traces.len()
            invariant
                i <= self.traces@.len(),
                forall|k: int| 0 <= k < i ==> (#[trigger] self.points()[k]).0 != id,
            decreases self.traces@.len() - i,
        {
            if self.traces[i].id == id {
                proof {
                    assert(self.points()[i as int].0 == id);
                }
                return true;
            }
            i = i + 1;
        }
        false
    }

    /// Push a trace point for `message`, logged at `location`, and hand out its handle.
    pub fn trace(&mut self, location: &Location, message: &str) -> (r: PointRef)
        requires
            old(self).next_id_view() < usize::MAX,
        ensures
            r.id_view() == old(self).next_id_view(),
            final(self).next_id_view() == old(self).next_id_view() + 1,
            final(self).points() == old(self).points().push(
                (old(self).next_id_view(), point_message(*location, message@)),
            ),
            old(self).wf() ==> final(self).wf(),
    {
        let mut text = String::from_str(location.module);
        text.append(" at ");
        text.append(location.file);
        text.append("(");
        let line = decimal_text(location.line);
        text.append(line.as_str());
        text.append("): ");
        text.append(message);
        let ghost before = self.traces@;
        self.traces.push(Point { id: self.next_id, message: text });
        proof {
            assert(self.traces@ == before.push(Point { id: old(self).next_id, message: text }));
            assert(self.points() =~= old(self).points().push(
                (old(self).next_id_view(), point_message(*location, message@)),
            ));
        }
        let point = PointRef { id: self.next_id };
        self.next_id = self.next_id + 1;
        point
    }

    /// Untrace the point with id `id`, and with it every point traced after it.
    pub fn untrace(&mut self, id: usize)
        requires
            holds_id(old(self).points(), id),
        ensures
            final(self).points() == untraced(old(self).points(), id),
            final(self).next_id_view() == old(self).next_id_view(),
            old(self).wf() ==> final(self).wf(),
    {
        proof {
            lemma_untraced_is_prefix(old(self).points(), id);
            if old(self).wf() {
                lemma_ordered_take(
                    old(self).points(),
                    old(self).next_id_view(),
                    untraced(old(self).points(), id).len() as int,
                );
            }
        }
        loop
            invariant_except_break
                holds_id(self.points(), id),
                untraced(self.points(), id) == untraced(old(self).points(), id),
            invariant
                self.next_id_view() == old(self).next_id_view(),
            ensures
                self.points() == untraced(old(self).points(), id),
            decreases self.traces.len(),
        {
            let ghost before = self.points();
            assert(before.len() > 0);
            let point = self.traces.pop().unwrap();
            proof {
                assert(self.points() =~= before.drop_last());
                assert(before.last() == (point.id, point.message@));
            }
            if point.id == id {
                break;
            }
            proof {
                let i = choose|i: int| 0 <= i < before.len() && (#[trigger] before[i]).0 == id;
                assert(i < before.len() - 1);
                assert(self.points()[i] == before[i]);
            }
        }
    }

    /// The trace points as a report: a heading, then each point's text on a line of its own.
    pub fn report(&self) -> (r: String)
        ensures
            r@ == report(self.points()),
    {
        let mut r = String::from_str("Trace points:");
        let mut i: usize = 0;
        while i < self.traces.len()
            invariant
                i <= self.traces.len(),
                r@ == report(self.points().take(i as int)),
            decreases self.traces.len() - i,
        {
            r.append("\n");
            r.append(self.traces[i].message.as_str());
            proof {
                let pts = self.points();
                assert(pts.take(i as int + 1).drop_last() =~= pts.take(i as int));
                assert(pts.take(i as int + 1).last() == pts[i as int]);
            }
            i = i + 1;
        }
        proof {
            assert(self.points().take(i as int) =~= self.points());
        }
        r
    }
}

/// Push a trace point for `message`, logged at `location`, onto the trace held in `manager`,
/// starting the trace if there is none yet.
pub fn trace(manager: &mut Option<Manager>, location: &Location, message: &str) -> (r: PointRef)
    requires
        (*old(manager)) is Some ==> (*old(manager))->0.next_id_view() < usize::MAX,
    ensures
        (*final(manager)) is Some,
        (*old(manager)) is None ==> r.id_view() == 0 && (*final(manager))->0.next_id_view() == 1
            && (*final(manager))->0.points() == seq![(0usize, point_message(*location, message@))],
        (*old(manager)) is Some ==> r.id_view() == (*old(manager))->0.next_id_view()
            && (*final(manager))->0.next_id_view() == (*old(manager))->0.next_id_view() + 1
            && (*final(manager))->0.points() == (*old(manager))->0.points().push(
            ((*old(manager))->0.next_id_view(), point_message(*location, message@)),
        ),
        ((*old(manager)) is Some ==> (*old(manager))->0.wf()) ==> (*final(manager))->0.wf(),
{
    match manager {
        Some(m) => m.trace(location, message),
        None => {
            let mut m = Manager::new();
            let r = m.trace(location, message);
            proof {
                assert(m.points() =~= seq![(0usize, point_message(*location, message@))]);
            }
            *manager = Some(m);
            r
        },
    }
}

/// The report of the trace held in `manager`; an error when no trace was started.
pub fn write_trace(manager: &Option<Manager>) -> (r: Result<String, ()>)
    ensures
        manager is None ==> r is Err,
        manager is Some ==> (r matches Ok(text) && text@ == report(manager->0.points())),
{
    match manager {
        Some(m) => Ok(m.report()),
        None => Err(()),
    }
}

/// Handles on trace points gathered in the order they were traced; releasing the frame
/// untraces them, the last first.
#[derive(Debug)]
pub struct PointFrame {
    traces: Vec<PointRef>,
}

impl PointFrame {
    /// The ids of the points in the frame, in the order they were added.
    pub closed spec fn ids(&self) -> Seq<usize> {
        self.traces@.map_values(|p: PointRef| p.id)
    }

    /// An empty frame.
    pub fn new() -> (r: PointFrame)
        ensures
            r.ids() == Seq::<usize>::empty(),
    {
        let r = PointFrame { traces: Vec::new() };
        proof {
            assert(r.ids() =~= Seq::<usize>::empty());
        }
        r
    }

    /// Add the handle `point` to the frame.
    pub fn add(&mut self, point: PointRef)
        ensures
            final(self).ids() == old(self).ids().push(point.id_view()),
    {
        self.traces.push(point);
        proof {
            assert(self.ids() =~= old(self).ids().push(point.id_view()));
        }
    }

    /// A frame that holds one new trace point, for `message` logged at `location`.
    pub fn new_add(manager: &mut Manager, location: &Location, message: &str) -> (r: PointFrame)
        requires
            old(manager).next_id_view() < usize::MAX,
        ensures
            r.ids() == seq![old(manager).next_id_view()],
            final(manager).next_id_view() == old(manager).next_id_view() + 1,
            final(manager).points() == old(manager).points().push(
                (old(manager).next_id_view(), point_message(*location, message@)),
            ),
            old(manager).wf() ==> final(manager).wf(),
    {
        let point = manager.trace(location, message);
        let mut r = PointFrame::new();
        r.add(point);
        proof {
            assert(r.ids() =~= seq![old(manager).next_id_view()]);
        }
        r
    }

    /// Untrace the frame's points, the last added first. When the frame holds points, what
    /// is left is what untracing its first point leaves.
    pub fn release(self, manager: &mut Manager)
        requires
            old(manager).wf(),
            forall|i: int, j: int| 0 <= i < j < self.ids().len() ==> self.ids()[i] < self.ids()[j],
            forall|i: int| 0 <= i < self.ids().len() ==> holds_id(old(manager).points(), #[trigger] self.ids()[i]),
        ensures
            self.ids().len() == 0 ==> final(manager).points() == old(manager).points(),
            self.ids().len() > 0 ==> final(manager).points() == untraced(old(manager).points(), self.ids()[0]),
            final(manager).next_id_view() == old(manager).next_id_view(),
            final(manager).wf(),
    {
        let ghost ids = self.ids();
        let ghost start = old(manager).points();
        let ghost next = old(manager).next_id_view();
        let ghost mut cut: int = start.len() as int;
        let mut traces = self.traces;
        proof {
            assert(start.take(cut) =~= start);
        }
        while traces.len() > 0
            invariant
                traces@.map_values(|p: PointRef| p.id) == ids.take(traces@.len() as int),
                traces@.len() <= ids.len(),
                ordered(start, next),
                forall|i: int, j: int| 0 <= i < j < ids.len() ==> ids[i] < ids[j],
                0 <= cut <= start.len(),
                manager.points() == start.take(cut),
                manager.next_id_view() == next,
                traces@.len() < ids.len() ==> cut < start.len() && start[cut].0 == ids[traces@.len() as int],
                traces@.len() == ids.len() ==> cut == start.len(),
                forall|j: int| 0 <= j < traces@.len() ==> holds_id(manager.points(), #[trigger] ids[j]),
            decreases traces.len(),
        {
            let ghost k = traces@.len() as int;
            let ghost before = traces@;
            let point = traces.pop().unwrap();
            proof {
                assert(before.map_values(|p: PointRef| p.id)[k - 1] == before[k - 1].id);
                assert(ids.take(k)[k - 1] == ids[k - 1]);
                assert(traces@.map_values(|p: PointRef| p.id) =~= ids.take(k - 1));
                assert(point.id == ids[k - 1]);
                assert(holds_id(manager.points(), ids[k - 1]));
            }
            let ghost i = choose|i: int| 0 <= i < manager.points().len() && (#[trigger] manager.points()[i]).0 == ids[k - 1];
            proof {
                lemma_ordered_take(start, next, cut);
                lemma_untrace_keeps_earlier(start.take(cut), next, i);
                assert(start.take(cut).take(i) =~= start.take(i));
            }
            manager.untrace(point.id());
            proof {
                assert forall|j: int| 0 <= j < k - 1 implies holds_id(manager.points(), #[trigger] ids[j]) by {
                    let pts = start.take(cut);
                    assert(holds_id(pts, ids[j]));
                    let w = choose|w: int| 0 <= w < pts.len() && (#[trigger] pts[w]).0 == ids[j];
                    assert(ids[j] < ids[k - 1]);
                    assert(pts[w] == start[w] && pts[i] == start[i]);
                    if w >= i {
                        assert(w != i);
                    }
                    assert(w < i);
                    assert(start.take(i)[w] == start[w]);
                }
                cut = i;
            }
        }
        proof {
            if ids.len() > 0 {
                lemma_untrace_keeps_earlier(start, next, cut);
            }
            lemma_ordered_take(start, next, cut);
        }
    }
}

} // verus!
