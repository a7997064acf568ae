//! A connection: bytes come in, requests are taken out of them one by one.
use crate::bytes::{first_match, lemma_first_match, matches_at};
use crate::http::{
    content_length, find_route, frame_of, http_path, lemma_gap_is_four, next_frame, path_in,
    route_of, Frame, Route,
};
use crate::response::answer_to;
use vstd::prelude::*;
use vstd::slice::slice_to_vec;
use vstd::string::StringSliceAdditionalSpecFns;

verus! {

/// How many bytes a connection holds.
pub const CAPACITY: usize = 8192;

/// The bytes that a connection holds, of which the first `consumed` belong to
/// requests that have been taken out.
pub struct ConnView {
    pub held: Seq<u8>,
    pub consumed: int,
}

/// A connection between two reads.
pub struct Connection {
    buf: Vec<u8>,
    consumed: usize,
}

/// What to do next on a connection.
#[derive(Clone, Copy, Debug, PartialEq, Eq, Structural)]
pub enum Action {
    /// Read more bytes.
    Read,
    /// Answer a request. Its body is held from `start` to `end`.
    Serve { route: Route, start: usize, end: usize },
    /// Hang up: what is held is no whole request, and there is no room for
    /// more.
    Close,
    /// The request announces a body longer than any memory.
    Overflow,
}

/// What to do next.
pub open spec fn next_action(c: ConnView) -> Action {
    let data = c.held.skip(c.consumed);
    match frame_of(data) {
        Frame::Complete { head, body } => Action::Serve {
            route: route_of(path_in(data.take(head as int))),
            start: (c.consumed + head) as usize,
            end: (c.consumed + head + body) as usize,
        },
        Frame::Partial => if data.len() == CAPACITY {
            Action::Close
        } else {
            Action::Read
        },
        Frame::Overflow => Action::Overflow,
    }
}

/// What is held after that: a request that is taken out is held until the
/// next step, and what has been taken out goes once there is no more to take.
pub open spec fn after_action(c: ConnView) -> ConnView {
    let data = c.held.skip(c.consumed);
    match frame_of(data) {
        Frame::Complete { head, body } => ConnView {
            held: c.held,
            consumed: c.consumed + head + body,
        },
        Frame::Partial => ConnView { held: data, consumed: 0 },
        Frame::Overflow => c,
    }
}

impl View for Connection {
    type V = ConnView;

    closed spec fn view(&self) -> ConnView {
        ConnView { held: self.buf@, consumed: self.consumed as int }
    }
}

impl Connection {
    #[verifier::type_invariant]
    spec fn is_in_bounds(self) -> bool {
        self.consumed <= self.buf@.len() <= CAPACITY
    }

    pub fn new() -> (conn: Self)
        ensures
            conn@ == (ConnView { held: Seq::empty(), consumed: 0 }),
    {
        let buf: Vec<u8> = Vec::new();
        Connection { buf, consumed: 0 }
    }

    /// How many bytes may be received.
    pub fn room(&self) -> (n: usize)
        ensures
            n == CAPACITY - self@.held.len(),
            0 <= self@.consumed <= self@.held.len(),
    {
        proof {
            use_type_invariant(self);
        }
        CAPACITY - self.buf.len()
    }

    /// Takes in bytes that have been read.
    pub fn receive(&mut self, chunk: &[u8])
        requires
            old(self)@.held.len() + chunk.len() <= CAPACITY,
        ensures
            final(self)@.held == old(self)@.held + chunk@,
            final(self)@.consumed == old(self)@.consumed,
    {
        proof {
            use_type_invariant(&*self);
        }
        let consumed = self.consumed;
        self.consumed = 0;
        let mut buf: Vec<u8> = Vec::new();
        std::mem::swap(&mut buf, &mut self.buf);
        let ghost before = buf@;
        for i in 0..chunk.len()
            invariant
                buf@ == before + chunk@.take(i as int),
        {
            buf.push(chunk[i]);
            assert(chunk@.take(i + 1) =~= chunk@.take(i as int).push(chunk@[i as int]));
        }
        assert(chunk@.take(chunk@.len() as int) =~= chunk@);
        *self = Connection { buf, consumed };
    }

    /// Takes the next request out, if there is a whole one.
    pub fn next(&mut self) -> (action: Action)
        ensures
            action == next_action(old(self)@),
            final(self)@ == after_action(old(self)@),
            action matches Action::Serve { route, start, end } ==> start <= end
                <= final(self)@.held.len(),
    {
        proof {
            use_type_invariant(&*self);
        }
        let consumed = self.consumed;
        let data: &[u8] = &self.buf.as_slice()[consumed..self.buf.len()];
        assert(data@ =~= self@.held.skip(self@.consumed));
        match next_frame(data) {
            Frame::Complete { head, body } => {
                assert(data@.subrange(0, head as int) =~= data@.take(head as int));
                let route = find_route(http_path(&data[0..head]));
                self.consumed = consumed + head + body;
                Action::Serve { route, start: consumed + head, end: consumed + head + body }
            },
            Frame::Partial => {
                assert(consumed == 0 ==> data@ =~= self@.held);
                let full = data.len() == CAPACITY;
                if consumed > 0 {
                    let buf = slice_to_vec(data);
                    *self = Connection { buf, consumed: 0 };
                }
                if full {
                    Action::Close
                } else {
                    Action::Read
                }
            },
            Frame::Overflow => Action::Overflow,
        }
    }

    /// The bytes held from `start` to `end`.
    pub fn slice(&self, start: usize, end: usize) -> (bytes: &[u8])
        requires
            start <= end <= self@.held.len(),
        ensures
            bytes@ == self@.held.subrange(start as int, end as int),
    {
        &self.buf.as_slice()[start..end]
    }
}

/// A request, taken out of a stream.
pub struct Request {
    pub head: Seq<u8>,
    pub body: Seq<u8>,
}

/// The whole requests at the start of a stream.
pub open spec fn requests(stream: Seq<u8>) -> Seq<Request>
    decreases stream.len(),
{
    match frame_of(stream) {
        Frame::Complete { head, body } => if 0 < head + body <= stream.len() {
            seq![Request { head: stream.take(head as int), body: stream.subrange(head as int, head + body) }]
                + requests(stream.skip(head + body))
        } else {
            Seq::empty()
        },
        _ => Seq::empty(),
    }
}

/// What is left of a stream behind its whole requests.
pub open spec fn leftover(stream: Seq<u8>) -> Seq<u8>
    decreases stream.len(),
{
    match frame_of(stream) {
        Frame::Complete { head, body } => if 0 < head + body <= stream.len() {
            leftover(stream.skip(head + body))
        } else {
            stream
        },
        _ => stream,
    }
}

/// What is found in a text is found in a longer one at the same place.
proof fn lemma_first_match_is_stable(s: Seq<u8>, more: Seq<u8>, from: int, pat: Seq<u8>)
    requires
        0 <= from,
        first_match(s, from, pat) is Some,
    ensures
        first_match(s + more, from, pat) == first_match(s, from, pat),
    decreases s.len() + 1 - from,
{
    assert(matches_at(s, from, pat) == matches_at(s + more, from, pat)) by {
        assert((s + more).subrange(from, from + pat.len()) =~= s.subrange(
            from,
            from + pat.len(),
        ));
    }
    if !matches_at(s, from, pat) {
        lemma_first_match_is_stable(s, more, from + 1, pat);
    }
}

/// Once a request is whole, what follows does not change it.
pub proof fn law_whole_requests_stay_the_same(stream: Seq<u8>, more: Seq<u8>)
    requires
        frame_of(stream) is Complete,
    ensures
        frame_of(stream + more) == frame_of(stream),
        frame_of(stream) matches Frame::Complete { head, body } && 4 <= head && head + body
            <= stream.len() && (stream + more).take(head as int) == stream.take(head as int) && (
        stream + more).subrange(head as int, head + body) == stream.subrange(
            head as int,
            head + body,
        ),
{
    let gap = "\r\n\r\n".spec_bytes();
    lemma_gap_is_four();
    lemma_first_match(stream, 0, gap);
    lemma_first_match_is_stable(stream, more, 0, gap);
    let end = first_match(stream, 0, gap)->0;
    let head = end + 4;
    assert((stream + more).take(head) =~= stream.take(head));
    let body = content_length(stream.take(head));
    assert((stream + more).subrange(head, head + body) =~= stream.subrange(head, head + body));
}

/// It does not matter in which pieces a stream comes: the requests taken out
/// of its first piece, followed by those taken out of what is left together
/// with the second piece, are the requests of the whole.
pub proof fn law_pieces_do_not_matter(first: Seq<u8>, second: Seq<u8>)
    ensures
        requests(first + second) == requests(first) + requests(leftover(first) + second),
        leftover(first + second) == leftover(leftover(first) + second),
    decreases first.len(),
{
    match frame_of(first) {
        Frame::Complete { head, body } => {
            law_whole_requests_stay_the_same(first, second);
            let n = head + body;
            let rest = first.skip(n);
            assert((first + second).skip(n) =~= rest + second);
            law_pieces_do_not_matter(rest, second);
            let one = seq![
                Request {
                    head: first.take(head as int),
                    body: first.subrange(head as int, n),
                },
            ];
            assert(one + (requests(rest) + requests(leftover(rest) + second)) =~= (one + requests(
                rest,
            )) + requests(leftover(rest) + second));
        },
        _ => {
            assert(requests(first) + requests(first + second) =~= requests(first + second));
        },
    }
}

/// Taking the next request out of a connection takes the first request off the
/// stream of bytes that it has yet to go through.
pub proof fn law_requests_come_in_order(c: ConnView)
    requires
        0 <= c.consumed <= c.held.len(),
        next_action(c) is Serve,
        c.held.len() <= CAPACITY,
    ensures
        ({
            let rest = c.held.skip(c.consumed);
            let next = after_action(c);
            &&& requests(rest).len() > 0
            &&& next_action(c) matches Action::Serve { route, start, end } && route == route_of(
                path_in(requests(rest)[0].head),
            ) && next.held.subrange(start as int, end as int) == requests(rest)[0].body
            &&& requests(next.held.skip(next.consumed)) == requests(rest).skip(1)
        }),
{
    let rest = c.held.skip(c.consumed);
    law_whole_requests_stay_the_same(rest, Seq::empty());
    if let Frame::Complete { head, body } = frame_of(rest) {
        let next = after_action(c);
        assert(next.held.skip(next.consumed) =~= rest.skip(head + body));
        assert(c.held.subrange(c.consumed + head, c.consumed + head + body) =~= rest.subrange(
            head as int,
            head + body,
        ));
        assert(requests(rest).skip(1) =~= requests(rest.skip(head + body)));
    }
}

/// The bytes of all reads, one after the other.
pub open spec fn joined(reads: Seq<Seq<u8>>) -> Seq<u8>
    decreases reads.len(),
{
    if reads.len() == 0 {
        Seq::empty()
    } else {
        reads[0] + joined(reads.skip(1))
    }
}

/// A connection that has taken in one more read.
pub open spec fn received(c: ConnView, read: Seq<u8>) -> ConnView {
    ConnView { held: c.held + read, consumed: c.consumed }
}

/// What a request is answered by: its route and its body.
pub open spec fn asked(request: Request) -> (Route, Seq<u8>) {
    (route_of(path_in(request.head)), request.body)
}

/// What a connection serves until it hangs up or has gone through the reads:
/// each step is the one that [`Connection::next`] takes, and each time it asks
/// for more bytes it receives the next read.
pub open spec fn served(c: ConnView, reads: Seq<Seq<u8>>) -> Seq<(Route, Seq<u8>)>
    decreases reads.len(), c.held.len() - c.consumed,
{
    let next = after_action(c);
    match next_action(c) {
        Action::Serve { route, start, end } => if c.consumed < next.consumed <= c.held.len() {
            seq![(route, next.held.subrange(start as int, end as int))] + served(next, reads)
        } else {
            Seq::empty()
        },
        Action::Read => if reads.len() > 0 {
            served(received(next, reads[0]), reads.skip(1))
        } else {
            Seq::empty()
        },
        _ => Seq::empty(),
    }
}

/// What is written in answer to what is served, where `count` tells what the
/// body of a request counts.
pub open spec fn written(
    served: Seq<(Route, Seq<u8>)>,
    count: spec_fn(Seq<u8>) -> Option<u8>,
) -> Seq<char>
    decreases served.len(),
{
    if served.len() == 0 {
        Seq::empty()
    } else {
        let (route, body) = served.last();
        written(served.drop_last(), count) + answer_to(route, count(body))
    }
}

/// Each read finds room when its turn comes.
pub open spec fn reads_fit(c: ConnView, reads: Seq<Seq<u8>>) -> bool
    decreases reads.len(), c.held.len() - c.consumed,
{
    let next = after_action(c);
    match next_action(c) {
        Action::Serve { .. } => c.consumed < next.consumed <= c.held.len() ==> reads_fit(
            next,
            reads,
        ),
        Action::Read => reads.len() > 0 ==> next.held.len() + reads[0].len() <= CAPACITY
            && reads_fit(received(next, reads[0]), reads.skip(1)),
        _ => true,
    }
}

/// No request of a stream is larger than a connection holds.
pub open spec fn requests_fit(stream: Seq<u8>) -> bool {
    forall|i: int|
        0 <= i < requests(stream).len() ==> (#[trigger] requests(stream)[i]).head.len()
            + requests(stream)[i].body.len() <= CAPACITY
}

/// A request that is whole in a text is whole in the part that holds it.
proof fn lemma_whole_in_part(part: Seq<u8>, more: Seq<u8>)
    requires
        frame_of(part + more) matches Frame::Complete { head, body } && head + body <= part.len(),
    ensures
        frame_of(part) == frame_of(part + more),
{
    let gap = "\r\n\r\n".spec_bytes();
    let stream = part + more;
    lemma_gap_is_four();
    lemma_first_match(stream, 0, gap);
    lemma_first_match(part, 0, gap);
    let end = first_match(stream, 0, gap)->0;
    assert(matches_at(part, end, gap)) by {
        assert(stream.subrange(end, end + 4) =~= part.subrange(end, end + 4));
    }
    lemma_first_match_is_stable(part, more, 0, gap);
    assert(stream.take(end + 4) =~= part.take(end + 4));
}

/// A request that is too long stays too long.
proof fn lemma_overflow_stays(part: Seq<u8>, more: Seq<u8>)
    requires
        frame_of(part) is Overflow,
    ensures
        frame_of(part + more) is Overflow,
{
    let gap = "\r\n\r\n".spec_bytes();
    lemma_gap_is_four();
    lemma_first_match(part, 0, gap);
    lemma_first_match_is_stable(part, more, 0, gap);
    let head = first_match(part, 0, gap)->0 + 4;
    assert((part + more).take(head) =~= part.take(head));
}

proof fn lemma_serves_the_rest(c: ConnView, reads: Seq<Seq<u8>>)
    requires
        0 <= c.consumed <= c.held.len() <= CAPACITY,
        reads_fit(c, reads),
        requests_fit(c.held.skip(c.consumed) + joined(reads)),
    ensures
        served(c, reads) == requests(c.held.skip(c.consumed) + joined(reads)).map_values(
            |r: Request| asked(r),
        ),
    decreases reads.len(), c.held.len() - c.consumed,
{
    let rest = c.held.skip(c.consumed);
    let stream = rest + joined(reads);
    let next = after_action(c);
    match frame_of(rest) {
        Frame::Complete { head, body } => {
            law_whole_requests_stay_the_same(rest, joined(reads));
            let n = head + body;
            let later = stream.skip(n);
            assert(next.held.skip(next.consumed) =~= rest.skip(n));
            assert(later =~= rest.skip(n) + joined(reads));
            let first = Request {
                head: stream.take(head as int),
                body: stream.subrange(head as int, n),
            };
            assert(requests(stream) == seq![first] + requests(later));
            assert(requests_fit(later)) by {
                assert forall|i: int| 0 <= i < requests(later).len() implies (
                #[trigger] requests(later)[i]).head.len() + requests(later)[i].body.len()
                    <= CAPACITY by {
                    assert(requests(stream)[i + 1] == requests(later)[i]);
                }
            }
            lemma_serves_the_rest(next, reads);
            assert(c.held.subrange(c.consumed + head, c.consumed + n) =~= first.body);
            assert(requests(stream).map_values(|r: Request| asked(r)) =~= seq![asked(first)]
                + requests(later).map_values(|r: Request| asked(r)));
        },
        Frame::Overflow => {
            lemma_overflow_stays(rest, joined(reads));
            assert(requests(stream).map_values(|r: Request| asked(r)) =~= Seq::empty());
        },
        Frame::Partial => {
            if rest.len() == CAPACITY {
                if let Frame::Complete { head, body } = frame_of(stream) {
                    law_whole_requests_stay_the_same(stream, Seq::empty());
                    let first = requests(stream)[0];
                    assert(first.head.len() + first.body.len() == head + body);
                    lemma_whole_in_part(rest, joined(reads));
                }
                assert(requests(stream).map_values(|r: Request| asked(r)) =~= Seq::empty());
            } else if reads.len() > 0 {
                let then = received(next, reads[0]);
                assert(then.held.skip(then.consumed) =~= rest + reads[0]);
                assert(then.held.skip(then.consumed) + joined(reads.skip(1)) =~= stream);
                lemma_serves_the_rest(then, reads.skip(1));
            } else {
                assert(stream =~= rest);
                assert(requests(stream).map_values(|r: Request| asked(r)) =~= Seq::empty());
            }
        },
    }
}

/// A connection serves the requests of its stream, all of them and in order,
/// into whatever reads the stream is cut, if each request is no larger than
/// what a connection holds.
pub proof fn law_connection_serves_its_stream(reads: Seq<Seq<u8>>)
    requires
        reads_fit(ConnView { held: Seq::empty(), consumed: 0 }, reads),
        requests_fit(joined(reads)),
    ensures
        served(ConnView { held: Seq::empty(), consumed: 0 }, reads) == requests(
            joined(reads),
        ).map_values(|r: Request| asked(r)),
{
    let c = ConnView { held: Seq::empty(), consumed: 0 };
    assert(c.held.skip(0) + joined(reads) =~= joined(reads));
    lemma_serves_the_rest(c, reads);
}

/// Two connections over which the same bytes come serve the same and write the
/// same, however differently the bytes are cut into reads.
pub proof fn law_reads_may_be_cut_anywhere(reads: Seq<Seq<u8>>, others: Seq<Seq<u8>>)
    requires
        joined(reads) == joined(others),
        reads_fit(ConnView { held: Seq::empty(), consumed: 0 }, reads),
        reads_fit(ConnView { held: Seq::empty(), consumed: 0 }, others),
        requests_fit(joined(reads)),
    ensures
        served(ConnView { held: Seq::empty(), consumed: 0 }, reads) == served(
            ConnView { held: Seq::empty(), consumed: 0 },
            others,
        ),
        forall|count: spec_fn(Seq<u8>) -> Option<u8>| #[trigger]
            written(served(ConnView { held: Seq::empty(), consumed: 0 }, reads), count) == written(
                served(ConnView { held: Seq::empty(), consumed: 0 }, others),
                count,
            ),
{
    law_connection_serves_its_stream(reads);
    law_connection_serves_its_stream(others);
}

/// What a connection does next depends on what it holds and has not yet
/// consumed: a whole request is served, with its path and its body, and
/// consumed; what is not yet whole waits for more bytes, of which there is
/// room for 8192 in all, and beyond that ends the connection.
pub proof fn law_steps_of_a_connection(c: ConnView)
    requires
        0 <= c.consumed <= c.held.len() <= 8192,
    ensures
        ({
            let rest = c.held.skip(c.consumed);
            let next = after_action(c);
            match frame_of(rest) {
                Frame::Complete { head, body } => {
                    &&& next_action(c) == (Action::Serve {
                        route: route_of(path_in(rest.take(head as int))),
                        start: (c.consumed + head) as usize,
                        end: (c.consumed + head + body) as usize,
                    })
                    &&& c.consumed + head + body <= 8192
                    &&& next.held == c.held
                    &&& next.consumed == c.consumed + head + body
                },
                Frame::Partial => {
                    &&& rest.len() < 8192 <==> next_action(c) == Action::Read
                    &&& rest.len() == 8192 <==> next_action(c) == Action::Close
                    &&& next.held == rest
                    &&& next.consumed == 0
                },
                Frame::Overflow => next_action(c) == Action::Overflow && next == c,
            }
        }),
{
    let rest = c.held.skip(c.consumed);
    if frame_of(rest) is Complete {
        law_whole_requests_stay_the_same(rest, Seq::empty());
    }
}

} // verus!
