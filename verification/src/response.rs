//! The answers, as they go over the wire.
use crate::http::Route;
use vstd::prelude::*;

verus! {

/// A digit as a character.
pub open spec fn digit_char(n: int) -> char {
    (48 + n) as char
}

/// A number from 10 to 99 in digits.
pub open spec fn in_digits(n: int) -> Seq<char> {
    seq![digit_char(n / 10), digit_char(n % 10)]
}

/// An answer with these header lines and this body, whose length it announces.
pub open spec fn ok_response(headers: Seq<char>, body: Seq<char>) -> Seq<char> {
    "HTTP/1.1 200 OK\r\n"@ + headers + "Content-Length: "@ + in_digits(body.len() as int)
        + "\r\n\r\n"@ + body
}

/// The share of fraudulent neighbours among five, as a decimal.
pub open spec fn share(count: int) -> Seq<char> {
    seq![digit_char(2 * count / 10), '.', digit_char(2 * count % 10)]
}

/// A transaction is approved if fewer than three of five neighbours are
/// fraudulent.
pub open spec fn is_approved(count: int) -> bool {
    count < 3
}

/// What is told of a transaction with so many fraudulent neighbours.
pub open spec fn score_body(count: int) -> Seq<char> {
    "{\"approved\":"@ + (if is_approved(count) {
        "true"@
    } else {
        "false"@
    }) + ",\"fraud_score\":"@ + share(count) + "}"@
}

/// The answer for a count, of which no more than five are counted.
pub open spec fn score_response(count: u8) -> Seq<char> {
    ok_response(
        Seq::empty(),
        score_body(
            if count < 5 {
                count as int
            } else {
                5
            },
        ),
    )
}

/// The answer that the service is ready.
pub open spec fn ready_response() -> Seq<char> {
    ok_response("Content-Type: application/json\r\n"@, "{\"status\":\"ok\"}"@)
}

pub fn fraud_resp(count: u8) -> (text: &'static str)
    ensures
        text@ == score_response(count),
{
    proof {
        reveal_strlit("HTTP/1.1 200 OK\r\n");
        reveal_strlit("Content-Length: ");
        reveal_strlit("\r\n\r\n");
        reveal_strlit("{\"approved\":");
        reveal_strlit("true");
        reveal_strlit("false");
        reveal_strlit(",\"fraud_score\":");
        reveal_strlit("}");
    }
    match count {
        0 => {
            proof {
                reveal_strlit(
                    "HTTP/1.1 200 OK\r\nContent-Length: 35\r\n\r\n{\"approved\":true,\"fraud_score\":0.0}",
                );
            }
            let text = "HTTP/1.1 200 OK\r\nContent-Length: 35\r\n\r\n{\"approved\":true,\"fraud_score\":0.0}";
            assert(text@ =~= score_response(0));
            text
        },
        1 => {
            proof {
                reveal_strlit(
                    "HTTP/1.1 200 OK\r\nContent-Length: 35\r\n\r\n{\"approved\":true,\"fraud_score\":0.2}",
                );
            }
            let text = "HTTP/1.1 200 OK\r\nContent-Length: 35\r\n\r\n{\"approved\":true,\"fraud_score\":0.2}";
            assert(text@ =~= score_response(1));
            text
        },
        2 => {
            proof {
                reveal_strlit(
                    "HTTP/1.1 200 OK\r\nContent-Length: 35\r\n\r\n{\"approved\":true,\"fraud_score\":0.4}",
                );
            }
            let text = "HTTP/1.1 200 OK\r\nContent-Length: 35\r\n\r\n{\"approved\":true,\"fraud_score\":0.4}";
            assert(text@ =~= score_response(2));
            text
        },
        3 => {
            proof {
                reveal_strlit(
                    "HTTP/1.1 200 OK\r\nContent-Length: 36\r\n\r\n{\"approved\":false,\"fraud_score\":0.6}",
                );
            }
            let text = "HTTP/1.1 200 OK\r\nContent-Length: 36\r\n\r\n{\"approved\":false,\"fraud_score\":0.6}";
            assert(text@ =~= score_response(3));
            text
        },
        4 => {
            proof {
                reveal_strlit(
                    "HTTP/1.1 200 OK\r\nContent-Length: 36\r\n\r\n{\"approved\":false,\"fraud_score\":0.8}",
                );
            }
            let text = "HTTP/1.1 200 OK\r\nContent-Length: 36\r\n\r\n{\"approved\":false,\"fraud_score\":0.8}";
            assert(text@ =~= score_response(4));
            text
        },
        _ => {
            proof {
                reveal_strlit(
                    "HTTP/1.1 200 OK\r\nContent-Length: 36\r\n\r\n{\"approved\":false,\"fraud_score\":1.0}",
                );
            }
            let text = "HTTP/1.1 200 OK\r\nContent-Length: 36\r\n\r\n{\"approved\":false,\"fraud_score\":1.0}";
            assert(text@ =~= score_response(5));
            text
        },
    }
}

pub fn ready_resp() -> (text: &'static str)
    ensures
        text@ == ready_response(),
{
    proof {
        reveal_strlit("HTTP/1.1 200 OK\r\n");
        reveal_strlit("Content-Length: ");
        reveal_strlit("\r\n\r\n");
        reveal_strlit("Content-Type: application/json\r\n");
        reveal_strlit("{\"status\":\"ok\"}");
        reveal_strlit(
            "HTTP/1.1 200 OK\r\nContent-Type: application/json\r\nContent-Length: 15\r\n\r\n{\"status\":\"ok\"}",
        );
    }
    let text = "HTTP/1.1 200 OK\r\nContent-Type: application/json\r\nContent-Length: 15\r\n\r\n{\"status\":\"ok\"}";
    assert(text@ =~= ready_response());
    text
}

/// The answer to a request. A transaction that could not be read has no count
/// and is answered as one without fraudulent neighbours, and so is a request
/// for anything else.
pub open spec fn answer_to(route: Route, count: Option<u8>) -> Seq<char> {
    match route {
        Route::Score => match count {
            Some(n) => score_response(n),
            None => score_response(0),
        },
        Route::Ready => ready_response(),
        Route::Other => score_response(0),
    }
}

/// Picks the answer to a request.
pub fn answer(route: Route, count: Option<u8>) -> (text: &'static str)
    ensures
        text@ == answer_to(route, count),
{
    match route {
        Route::Score => match count {
            Some(n) => fraud_resp(n),
            None => fraud_resp(0),
        },
        Route::Ready => ready_resp(),
        Route::Other => fraud_resp(0),
    }
}

/// Each count has its answer: the share of five in tenths, and approval below
/// three fifths. More than five count as five.
pub proof fn law_scores_are_answered_in_fifths(count: u8)
    ensures
        count == 0 ==> score_response(count)
            == "HTTP/1.1 200 OK\r\nContent-Length: 35\r\n\r\n{\"approved\":true,\"fraud_score\":0.0}"@,
        count == 1 ==> score_response(count)
            == "HTTP/1.1 200 OK\r\nContent-Length: 35\r\n\r\n{\"approved\":true,\"fraud_score\":0.2}"@,
        count == 2 ==> score_response(count)
            == "HTTP/1.1 200 OK\r\nContent-Length: 35\r\n\r\n{\"approved\":true,\"fraud_score\":0.4}"@,
        count == 3 ==> score_response(count)
            == "HTTP/1.1 200 OK\r\nContent-Length: 36\r\n\r\n{\"approved\":false,\"fraud_score\":0.6}"@,
        count == 4 ==> score_response(count)
            == "HTTP/1.1 200 OK\r\nContent-Length: 36\r\n\r\n{\"approved\":false,\"fraud_score\":0.8}"@,
        count >= 5 ==> score_response(count)
            == "HTTP/1.1 200 OK\r\nContent-Length: 36\r\n\r\n{\"approved\":false,\"fraud_score\":1.0}"@,
{
    reveal_strlit("HTTP/1.1 200 OK\r\n");
    reveal_strlit("Content-Length: ");
    reveal_strlit("\r\n\r\n");
    reveal_strlit("{\"approved\":");
    reveal_strlit("true");
    reveal_strlit("false");
    reveal_strlit(",\"fraud_score\":");
    reveal_strlit("}");
    reveal_strlit(
        "HTTP/1.1 200 OK\r\nContent-Length: 35\r\n\r\n{\"approved\":true,\"fraud_score\":0.0}",
    );
    reveal_strlit(
        "HTTP/1.1 200 OK\r\nContent-Length: 35\r\n\r\n{\"approved\":true,\"fraud_score\":0.2}",
    );
    reveal_strlit(
        "HTTP/1.1 200 OK\r\nContent-Length: 35\r\n\r\n{\"approved\":true,\"fraud_score\":0.4}",
    );
    reveal_strlit(
        "HTTP/1.1 200 OK\r\nContent-Length: 36\r\n\r\n{\"approved\":false,\"fraud_score\":0.6}",
    );
    reveal_strlit(
        "HTTP/1.1 200 OK\r\nContent-Length: 36\r\n\r\n{\"approved\":false,\"fraud_score\":0.8}",
    );
    reveal_strlit(
        "HTTP/1.1 200 OK\r\nContent-Length: 36\r\n\r\n{\"approved\":false,\"fraud_score\":1.0}",
    );
    if count == 0 {
        assert(score_response(0)
            =~= "HTTP/1.1 200 OK\r\nContent-Length: 35\r\n\r\n{\"approved\":true,\"fraud_score\":0.0}"@);
    } else if count == 1 {
        assert(score_response(1)
            =~= "HTTP/1.1 200 OK\r\nContent-Length: 35\r\n\r\n{\"approved\":true,\"fraud_score\":0.2}"@);
    } else if count == 2 {
        assert(score_response(2)
            =~= "HTTP/1.1 200 OK\r\nContent-Length: 35\r\n\r\n{\"approved\":true,\"fraud_score\":0.4}"@);
    } else if count == 3 {
        assert(score_response(3)
            =~= "HTTP/1.1 200 OK\r\nContent-Length: 36\r\n\r\n{\"approved\":false,\"fraud_score\":0.6}"@);
    } else if count == 4 {
        assert(score_response(4)
            =~= "HTTP/1.1 200 OK\r\nContent-Length: 36\r\n\r\n{\"approved\":false,\"fraud_score\":0.8}"@);
    } else {
        assert(score_response(count)
            =~= "HTTP/1.1 200 OK\r\nContent-Length: 36\r\n\r\n{\"approved\":false,\"fraud_score\":1.0}"@);
    }
}

/// A transaction that could not be read, and a request for anything that there
/// is not, are answered as a transaction without fraudulent neighbours; the
/// question whether the service is ready is answered the same, whatever the
/// count.
pub proof fn law_answers_by_route(route: Route, count: Option<u8>)
    ensures
        route == Route::Score ==> answer_to(route, count) == score_response(
            if count is Some {
                count->0
            } else {
                0
            },
        ),
        route == Route::Other ==> answer_to(route, count) == score_response(0),
        route == Route::Ready ==> answer_to(route, count)
            == "HTTP/1.1 200 OK\r\nContent-Type: application/json\r\nContent-Length: 15\r\n\r\n{\"status\":\"ok\"}"@,
{
    reveal_strlit("HTTP/1.1 200 OK\r\n");
    reveal_strlit("Content-Length: ");
    reveal_strlit("\r\n\r\n");
    reveal_strlit("Content-Type: application/json\r\n");
    reveal_strlit("{\"status\":\"ok\"}");
    reveal_strlit(
        "HTTP/1.1 200 OK\r\nContent-Type: application/json\r\nContent-Length: 15\r\n\r\n{\"status\":\"ok\"}",
    );
    assert(ready_response()
        =~= "HTTP/1.1 200 OK\r\nContent-Type: application/json\r\nContent-Length: 15\r\n\r\n{\"status\":\"ok\"}"@);
}

} // verus!
