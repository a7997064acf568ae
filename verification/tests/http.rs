use rinha_fraud::balancer::{next_try, Balancer, Step};
use rinha_fraud::conn::{Action, Connection, CAPACITY};
use rinha_fraud::http::{
    checked_content_length, find_route, http_content_length, http_path, next_frame, Frame, Route,
};
use rinha_fraud::response::{answer, fraud_resp, ready_resp};

#[test]
fn path_stands_between_the_first_spaces() {
    assert_eq!(http_path(b"POST /fraud-score HTTP/1.1\r\n"), b"/fraud-score");
    assert_eq!(http_path(b"GET  HTTP/1.1\r\n"), b"");
    assert_eq!(http_path(b"GET /ready"), b"");
    assert_eq!(http_path(b"GET"), b"");
    assert_eq!(http_path(b""), b"");
}

#[test]
fn content_length_is_read_in_both_spellings() {
    for (head, n) in [
        ("POST / HTTP/1.1\r\nContent-Length: 35\r\n\r\n", 35),
        ("POST / HTTP/1.1\r\ncontent-length: 7\r\n\r\n", 7),
        ("POST / HTTP/1.1\r\nContent-Length:12\r\n\r\n", 12),
        ("POST / HTTP/1.1\r\ncontent-length:13\r\n\r\n", 13),
        ("POST / HTTP/1.1\r\nContent-Length:   4\r\n\r\n", 4),
        ("POST / HTTP/1.1\r\nCONTENT-LENGTH: 4\r\n\r\n", 0),
        ("POST / HTTP/1.1\r\nContent-Length: x\r\n\r\n", 0),
        ("POST / HTTP/1.1\r\n\r\n", 0),
        ("Content-Length: 12", 12),
    ] {
        assert_eq!(http_content_length(head.as_bytes()), n);
        assert_eq!(checked_content_length(head.as_bytes()), Some(n));
    }
}

#[test]
fn spelling_decides_between_several_lengths() {
    assert_eq!(http_content_length(b"content-length: 1\r\nContent-Length: 2\r\n"), 2);
    assert_eq!(http_content_length(b"Content-Length:1\r\ncontent-length: 2\r\n"), 2);
    assert_eq!(http_content_length(b"Content-Length: 1\r\nContent-Length: 2\r\n"), 1);
}

#[test]
fn length_beyond_the_machine_is_noticed() {
    let head = format!("Content-Length: {}", usize::MAX);
    assert_eq!(checked_content_length(head.as_bytes()), Some(usize::MAX));
    let head = format!("Content-Length: {}0", usize::MAX);
    assert_eq!(checked_content_length(head.as_bytes()), None);
    let head = format!("Content-Length: {}\r\n\r\n", usize::MAX);
    assert_eq!(next_frame(head.as_bytes()), Frame::Overflow);
    let head = format!("Content-Length: {}0\r\n\r\n", usize::MAX);
    assert_eq!(next_frame(head.as_bytes()), Frame::Overflow);
}

#[test]
fn frame_is_head_and_body() {
    assert_eq!(
        next_frame(b"Content-Length: 3\r\n\r\nabcd"),
        Frame::Complete { head: 21, body: 3 }
    );
    assert_eq!(next_frame(b"Content-Length: 3\r\n\r\nab"), Frame::Partial);
    assert_eq!(next_frame(b"Content-Length: 3\r\n\r"), Frame::Partial);
    assert_eq!(next_frame(b"\r\n\r\n"), Frame::Complete { head: 4, body: 0 });
    assert_eq!(next_frame(b"\r\n\r\nContent-Length: 3"), Frame::Complete { head: 4, body: 0 });
    assert_eq!(next_frame(b""), Frame::Partial);
}

#[test]
fn routes_are_told_apart() {
    assert_eq!(find_route(b"/fraud-score"), Route::Score);
    assert_eq!(find_route(b"/ready"), Route::Ready);
    assert_eq!(find_route(b"/fraud-score/"), Route::Other);
    assert_eq!(find_route(b"/Ready"), Route::Other);
    assert_eq!(find_route(b""), Route::Other);
}

#[test]
fn scores_are_answered_in_fifths() {
    let answers = [
        "HTTP/1.1 200 OK\r\nContent-Length: 35\r\n\r\n{\"approved\":true,\"fraud_score\":0.0}",
        "HTTP/1.1 200 OK\r\nContent-Length: 35\r\n\r\n{\"approved\":true,\"fraud_score\":0.2}",
        "HTTP/1.1 200 OK\r\nContent-Length: 35\r\n\r\n{\"approved\":true,\"fraud_score\":0.4}",
        "HTTP/1.1 200 OK\r\nContent-Length: 36\r\n\r\n{\"approved\":false,\"fraud_score\":0.6}",
        "HTTP/1.1 200 OK\r\nContent-Length: 36\r\n\r\n{\"approved\":false,\"fraud_score\":0.8}",
        "HTTP/1.1 200 OK\r\nContent-Length: 36\r\n\r\n{\"approved\":false,\"fraud_score\":1.0}",
    ];
    for count in 0..6 {
        assert_eq!(fraud_resp(count), answers[count as usize]);
        assert_eq!(answer(Route::Score, Some(count)), answers[count as usize]);
    }
    assert_eq!(fraud_resp(6), answers[5]);
    assert_eq!(fraud_resp(255), answers[5]);
    assert_eq!(answer(Route::Score, None), answers[0]);
    assert_eq!(answer(Route::Other, None), answers[0]);
    assert_eq!(answer(Route::Other, Some(5)), answers[0]);
}

#[test]
fn readiness_is_answered_in_json() {
    let ready = "HTTP/1.1 200 OK\r\nContent-Type: application/json\r\nContent-Length: 15\r\n\r\n{\"status\":\"ok\"}";
    assert_eq!(ready_resp(), ready);
    assert_eq!(answer(Route::Ready, None), ready);
}

#[test]
fn announced_lengths_are_those_of_the_bodies() {
    for count in 0..6 {
        let text = fraud_resp(count).as_bytes();
        assert_eq!(next_frame(text), Frame::Complete { head: 39, body: text.len() - 39 });
    }
    let text = ready_resp().as_bytes();
    assert_eq!(next_frame(text), Frame::Complete { head: text.len() - 15, body: 15 });
}

const POST: &str = "POST /fraud-score HTTP/1.1\r\nContent-Length: 4\r\n\r\nbody";

/// The requests that a connection serves when the text comes in pieces.
fn served(text: &[u8], piece: usize) -> Vec<(Route, Vec<u8>)> {
    let mut conn = Connection::new();
    let mut out = Vec::new();
    let mut from = 0;
    loop {
        match conn.next() {
            Action::Read => {
                if from == text.len() {
                    return out;
                }
                let n = piece.min(text.len() - from).min(conn.room());
                conn.receive(&text[from..from + n]);
                from += n;
            }
            Action::Serve { route, start, end } => {
                out.push((route, conn.slice(start, end).to_vec()));
            }
            Action::Close | Action::Overflow => panic!(),
        }
    }
}

#[test]
fn new_connection_reads_first() {
    let mut conn = Connection::new();
    assert_eq!(conn.room(), CAPACITY);
    assert_eq!(conn.next(), Action::Read);
}

#[test]
fn request_is_served_with_its_body() {
    assert_eq!(served(POST.as_bytes(), 8192), vec![(Route::Score, b"body".to_vec())]);
}

#[test]
fn requests_are_served_in_order() {
    let text = format!("{POST}GET /ready HTTP/1.1\r\n\r\nGET /x HTTP/1.1\r\n\r\n{POST}rest");
    assert_eq!(
        served(text.as_bytes(), 8192),
        vec![
            (Route::Score, b"body".to_vec()),
            (Route::Ready, b"".to_vec()),
            (Route::Other, b"".to_vec()),
            (Route::Score, b"body".to_vec()),
        ]
    );
}

#[test]
fn pieces_do_not_matter() {
    let text = format!("{POST}GET /ready HTTP/1.1\r\n\r\n{POST}GET /read");
    let whole = served(text.as_bytes(), 8192);
    assert_eq!(whole.len(), 3);
    for piece in 1..text.len() {
        assert_eq!(served(text.as_bytes(), piece), whole);
    }
}

#[test]
fn room_comes_back_once_requests_are_served() {
    let mut conn = Connection::new();
    conn.receive(POST.as_bytes());
    conn.receive(b"GET /");
    assert!(matches!(conn.next(), Action::Serve { .. }));
    assert_eq!(conn.next(), Action::Read);
    assert_eq!(conn.room(), CAPACITY - 5);
}

#[test]
fn stream_may_be_longer_than_the_buffer() {
    let text = POST.repeat(1000);
    assert_eq!(served(text.as_bytes(), 8192).len(), 1000);
    for piece in [1, 7, 1000, 8191] {
        assert_eq!(served(text.as_bytes(), piece), served(text.as_bytes(), 8192));
    }
}

#[test]
fn oversized_request_is_hung_up_on() {
    let mut conn = Connection::new();
    conn.receive(&[b'x'; 8191]);
    assert_eq!(conn.next(), Action::Read);
    conn.receive(b"x");
    assert_eq!(conn.room(), 0);
    assert_eq!(conn.next(), Action::Close);
}

#[test]
fn request_that_just_fits_is_served() {
    let head = "POST / HTTP/1.1\r\nContent-Length: 8154\r\n\r\n";
    let mut text = head.as_bytes().to_vec();
    text.resize(CAPACITY, b'x');
    assert_eq!(head.len() + 8154, CAPACITY + 3);
    let mut conn = Connection::new();
    conn.receive(&text);
    assert_eq!(conn.next(), Action::Close);
    let mut text = head.replace("8154", "8151").into_bytes();
    text.resize(CAPACITY, b'x');
    let mut conn = Connection::new();
    conn.receive(&text);
    assert!(matches!(conn.next(), Action::Serve { .. }));
    assert_eq!(conn.next(), Action::Read);
    assert_eq!(conn.room(), CAPACITY);
}

#[test]
fn impossible_length_overflows() {
    let mut conn = Connection::new();
    conn.receive(format!("POST / HTTP/1.1\r\nContent-Length: {}0\r\n\r\n", usize::MAX).as_bytes());
    assert_eq!(conn.next(), Action::Overflow);
}

#[test]
fn upstreams_take_turns() {
    let mut lb = Balancer::new(3);
    for i in 0..10 {
        assert_eq!(lb.begin(), Step::Pass(i % 3));
        assert_eq!(lb.proceed(true), Step::Sent);
    }
}

#[test]
fn refusal_leads_to_a_reconnection() {
    let mut lb = Balancer::new(2);
    assert_eq!(lb.begin(), Step::Pass(0));
    assert_eq!(lb.proceed(false), Step::Reconnect(0));
    assert_eq!(lb.proceed(true), Step::Pass(0));
    assert_eq!(lb.proceed(true), Step::Sent);
    assert_eq!(lb.begin(), Step::Pass(1));
}

#[test]
fn next_upstream_is_asked_after_a_failure() {
    let mut lb = Balancer::new(3);
    assert_eq!(lb.begin(), Step::Pass(0));
    assert_eq!(lb.proceed(false), Step::Reconnect(0));
    assert_eq!(lb.proceed(false), Step::Pass(1));
    assert_eq!(lb.proceed(false), Step::Reconnect(1));
    assert_eq!(lb.proceed(true), Step::Pass(1));
    assert_eq!(lb.proceed(false), Step::Pass(2));
    assert_eq!(lb.proceed(true), Step::Sent);
    assert_eq!(lb.begin(), Step::Pass(0));
}

#[test]
fn client_is_dropped_once_every_upstream_refused() {
    let mut lb = Balancer::new(3);
    assert_eq!(lb.begin(), Step::Pass(0));
    assert_eq!(lb.proceed(true), Step::Sent);
    assert_eq!(lb.begin(), Step::Pass(1));
    for i in [1, 2, 0] {
        assert_eq!(lb.proceed(false), Step::Reconnect(i));
        let next = lb.proceed(false);
        assert_eq!(next, if i == 0 { Step::Dropped } else { Step::Pass((i + 1) % 3) });
    }
    assert_eq!(lb.begin(), Step::Pass(1));
}

#[test]
fn no_upstreams_drop_everything() {
    let mut lb = Balancer::new(0);
    assert_eq!(lb.begin(), Step::Dropped);
    assert_eq!(lb.begin(), Step::Dropped);
}

#[test]
fn upstreams_are_tried_for_a_minute() {
    let mut tried = 0;
    let mut waited = 0;
    while let Some(wait) = next_try(tried) {
        tried += 1;
        waited += wait;
    }
    assert_eq!(tried, 600);
    assert_eq!(waited, 60000);
    assert_eq!(next_try(u32::MAX), None);
}
