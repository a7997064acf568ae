//! The vector that stands for a transaction in the index.
use crate::bytes::matches_at;
use crate::calendar::{
    check_digits, check_minutes, check_weekday, d2, d4, four_digits, has_digits, has_minutes,
    has_weekday, minutes_of, ts_minutes, ts_weekday, two_digits, weekday,
};
use crate::distance::is_feature_vector;
use crate::layout::DIMS;
use crate::scan::{law_keys_are_found_in_quotes, quoted, seek_key};
use crate::tx::{Transaction, TransactionView};
use vstd::prelude::*;

verus! {

/// `n / d`, held to 0 to 1 and counted in ten-thousandths, rounded to the
/// nearest (and up from the middle).
pub open spec fn ten_thousandths(n: int, d: int) -> int {
    if n <= 0 {
        0
    } else if n >= d {
        10000
    } else {
        (20000 * n + d) / (2 * d)
    }
}

/// Counts `n / d` in ten-thousandths.
pub fn quantise(n: i32, d: i32) -> (r: i16)
    requires
        1 <= d,
    ensures
        r == ten_thousandths(n as int, d as int),
        0 <= r <= 10000,
        n <= 0 ==> r == 0,
        n >= d ==> r == 10000,
        0 < n < d ==> 2 * d * r <= 20000 * n + d < 2 * d * (r + 1),
{
    proof {
        law_quotients_are_rounded(n as int, d as int);
    }
    if n <= 0 {
        return 0;
    }
    if n >= d {
        return 10000;
    }
    let r: i64 = (20000 * n as i64 + d as i64) / (2 * d as i64);
    assert(0 <= r <= 10000) by (nonlinear_arith)
        requires
            r == (20000 * n + d) / (2 * d),
            0 < n < d,
    ;
    r as i16
}

/// How risky a category of merchants is.
pub open spec fn risk_of(code: int) -> i16 {
    if code == 5411 {
        1500
    } else if code == 5812 {
        3000
    } else if code == 5912 {
        2000
    } else if code == 5944 {
        4500
    } else if code == 7801 {
        8000
    } else if code == 7802 {
        7500
    } else if code == 7995 {
        8500
    } else if code == 4511 {
        3500
    } else if code == 5311 {
        2500
    } else {
        5000
    }
}

/// How risky the category is that the text names; a text too short for a
/// category names an unknown one.
pub open spec fn category_risk(code: Seq<u8>) -> i16 {
    if code.len() < 4 {
        5000
    } else {
        risk_of(four_digits(code, 0))
    }
}

pub fn mcc_risk(code: &[u8]) -> (r: i16)
    requires
        code.len() >= 4 ==> has_digits(code@, 0, 4),
    ensures
        r == category_risk(code@),
        1500 <= r <= 8500,
        code.len() < 4 ==> r == 5000,
{
    if code.len() < 4 {
        return 5000;
    }
    match d4(code, 0) {
        5411 => 1500,
        5812 => 3000,
        5912 => 2000,
        5944 => 4500,
        7801 => 8000,
        7802 => 7500,
        7995 => 8500,
        4511 => 3500,
        5311 => 2500,
        _ => 5000,
    }
}

/// `text` stands somewhere in `s`, in quotes.
pub open spec fn contains_quoted(s: Seq<u8>, text: Seq<u8>) -> bool {
    exists|i: int| #[trigger] matches_at(s, i, quoted(text))
}

/// Tells whether the needle stands among the known ones, as a quoted JSON
/// string. An empty needle does not.
pub fn body_contains(haystack: &[u8], needle: &[u8]) -> (yes: bool)
    ensures
        yes == (needle@.len() > 0 && contains_quoted(haystack@, needle@)),
        yes == (needle@.len() > 0 && exists|i: int| #[trigger]
            matches_at(haystack@, i, seq![34u8] + needle@ + seq![34u8])),
{
    assert(quoted(needle@) =~= seq![34u8] + needle@ + seq![34u8]);
    if needle.len() == 0 {
        return false;
    }
    proof {
        law_keys_are_found_in_quotes(haystack@, 0, needle@);
        assert forall|i: int| #[trigger]
            matches_at(haystack@, i, quoted(needle@)) implies i >= 0 by {}
    }
    let mut p: usize = 0;
    seek_key(haystack, &mut p, needle)
}

/// The merchant has an id, and it stands in quotes among the known ones.
pub open spec fn is_known(known: Seq<u8>, id: Seq<u8>) -> bool {
    id.len() > 0 && exists|i: int| #[trigger] matches_at(known, i, seq![34u8] + id + seq![34u8])
}

/// The numbers of a transaction that come as decimals, counted in
/// ten-thousandths of the most that counts.
#[derive(Clone, Copy)]
pub struct Quantised {
    /// Of 10000.
    pub amount: i16,
    /// Of 12.
    pub installments: i16,
    /// The amount, of ten times what the customer spends on average.
    pub amount_ratio: i16,
    /// From the last transaction, of 1000.
    pub km_from_last: i16,
    /// Of 1000.
    pub km_from_home: i16,
    /// Of 20.
    pub tx_count: i16,
    /// What the merchant takes on average, of 10000.
    pub merchant_avg: i16,
}

pub open spec fn in_range(x: i16) -> bool {
    0 <= x <= 10000
}

impl Quantised {
    /// All numbers lie from 0 to 10000.
    pub open spec fn is_in_range(self) -> bool {
        &&& in_range(self.amount)
        &&& in_range(self.installments)
        &&& in_range(self.amount_ratio)
        &&& in_range(self.km_from_last)
        &&& in_range(self.km_from_home)
        &&& in_range(self.tx_count)
        &&& in_range(self.merchant_avg)
    }
}

impl TransactionView {
    /// The minutes since the last transaction.
    pub open spec fn minutes_since_last(self) -> int {
        minutes_of(self.purchase.requested_at) - minutes_of(self.last->0.timestamp)
    }

    /// Points in time and the category are written so that they can be
    /// computed with.
    pub open spec fn is_computable(self) -> bool {
        let at = self.purchase.requested_at;
        &&& has_weekday(at)
        &&& has_digits(at, 11, 2)
        &&& self.last matches Some(l) ==> has_minutes(at) && has_minutes(l.timestamp) && i32::MIN
            <= self.minutes_since_last() <= i32::MAX
        &&& self.merchant.mcc.len() >= 4 ==> has_digits(self.merchant.mcc, 0, 4)
    }

    /// The vector of the transaction.
    pub open spec fn vector(self, q: Quantised) -> Seq<i16> {
        let at = self.purchase.requested_at;
        let known = self.merchant.id.len() > 0 && contains_quoted(
            self.customer.known_merchants,
            self.merchant.id,
        );
        seq![
            q.amount,
            q.installments,
            q.amount_ratio,
            ten_thousandths(two_digits(at, 11), 23) as i16,
            ten_thousandths(weekday(at), 6) as i16,
            if self.last is Some {
                ten_thousandths(self.minutes_since_last(), 1440) as i16
            } else {
                -10000i16
            },
            if self.last is Some {
                q.km_from_last
            } else {
                -10000i16
            },
            q.km_from_home,
            q.tx_count,
            if self.terminal.is_online {
                10000i16
            } else {
                0i16
            },
            if self.terminal.card_present {
                10000i16
            } else {
                0i16
            },
            if known {
                0i16
            } else {
                10000i16
            },
            category_risk(self.merchant.mcc),
            q.merchant_avg,
        ]
    }
}

impl<'a> Transaction<'a> {
    /// Tells whether the vector of the transaction can be computed.
    pub fn check_computable(&self) -> (yes: bool)
        ensures
            yes == self@.is_computable(),
    {
        let at = self.purchase.requested_at;
        if !check_weekday(at) || !check_digits(at, 11, 2) {
            return false;
        }
        if let Some(last) = &self.last {
            if !check_minutes(at) || !check_minutes(last.timestamp) {
                return false;
            }
            let since: i64 = ts_minutes(at) as i64 - ts_minutes(last.timestamp) as i64;
            if since < i32::MIN as i64 || since > i32::MAX as i64 {
                return false;
            }
        }
        let mcc = self.merchant.mcc;
        mcc.len() < 4 || check_digits(mcc, 0, 4)
    }

    /// Computes the vector of the transaction.
    pub fn to_vector(&self, q: &Quantised) -> (out: [i16; DIMS])
        requires
            self@.is_computable(),
        ensures
            out@ == self@.vector(*q),
            out@[0] == q.amount && out@[1] == q.installments && out@[2] == q.amount_ratio,
            out@[3] == ten_thousandths(two_digits(self.purchase.requested_at@, 11), 23),
            out@[4] == ten_thousandths(weekday(self.purchase.requested_at@), 6),
            self.last is Some ==> out@[5] == ten_thousandths(
                minutes_of(self.purchase.requested_at@) - minutes_of(self.last->0.timestamp@),
                1440,
            ) && out@[6] == q.km_from_last,
            self.last is None ==> out@[5] == -10000 && out@[6] == -10000,
            out@[7] == q.km_from_home && out@[8] == q.tx_count,
            self.terminal.is_online ==> out@[9] == 10000,
            !self.terminal.is_online ==> out@[9] == 0,
            self.terminal.card_present ==> out@[10] == 10000,
            !self.terminal.card_present ==> out@[10] == 0,
            is_known(self.customer.known_merchants@, self.merchant.id@) ==> out@[11] == 0,
            !is_known(self.customer.known_merchants@, self.merchant.id@) ==> out@[11] == 10000,
            out@[12] == category_risk(self.merchant.mcc@),
            out@[13] == q.merchant_avg,
    {
        proof {
            lemma_ten_thousandths(two_digits(self.purchase.requested_at@, 11), 23);
            lemma_ten_thousandths(weekday(self.purchase.requested_at@), 6);
            assert(quoted(self.merchant.id@) =~= seq![34u8] + self.merchant.id@ + seq![34u8]);
        }
        let at = self.purchase.requested_at;
        let mut out: [i16; DIMS] = [0; DIMS];
        out[0] = q.amount;
        out[1] = q.installments;
        out[2] = q.amount_ratio;
        out[3] = quantise(d2(at, 11), 23);
        out[4] = quantise(ts_weekday(at), 6);
        if let Some(last) = &self.last {
            let delta: i32 = ts_minutes(at) - ts_minutes(last.timestamp);
            out[5] = quantise(delta, 1440);
            out[6] = q.km_from_last;
        } else {
            out[5] = -10000;
            out[6] = -10000;
        }
        out[7] = q.km_from_home;
        out[8] = q.tx_count;
        out[9] = if self.terminal.is_online {
            10000
        } else {
            0
        };
        out[10] = if self.terminal.card_present {
            10000
        } else {
            0
        };
        out[11] = if body_contains(self.customer.known_merchants, self.merchant.id) {
            0
        } else {
            10000
        };
        out[12] = mcc_risk(self.merchant.mcc);
        out[13] = q.merchant_avg;
        assert(out@ =~= self@.vector(*q));
        out
    }
}

/// Every transaction has a vector of the kind that the index is made for.
pub proof fn law_vectors_are_feature_vectors(tx: TransactionView, q: Quantised)
    requires
        q.is_in_range(),
    ensures
        is_feature_vector(tx.vector(q)),
{
    lemma_ten_thousandths(two_digits(tx.purchase.requested_at, 11), 23);
    lemma_ten_thousandths(weekday(tx.purchase.requested_at), 6);
    lemma_ten_thousandths(tx.minutes_since_last(), 1440);
}

proof fn lemma_ten_thousandths(n: int, d: int)
    requires
        d > 0,
    ensures
        0 <= ten_thousandths(n, d) <= 10000,
{
    if 0 < n < d {
        assert(0 <= (20000 * n + d) / (2 * d) <= 10000) by (nonlinear_arith)
            requires
                0 < n < d,
        ;
    }
}

/// A quotient is counted in ten-thousandths to the nearest, up from the
/// middle, and held to 0 to 1.
pub proof fn law_quotients_are_rounded(n: int, d: int)
    requires
        d > 0,
    ensures
        n <= 0 ==> ten_thousandths(n, d) == 0,
        n >= d ==> ten_thousandths(n, d) == 10000,
        0 < n < d ==> 2 * d * ten_thousandths(n, d) <= 20000 * n + d < 2 * d * (ten_thousandths(n, d)
            + 1),
{
    if 0 < n < d {
        let x = 20000 * n + d;
        vstd::arithmetic::div_mod::lemma_fundamental_div_mod(x, 2 * d);
        vstd::arithmetic::div_mod::lemma_mod_bound(x, 2 * d);
        let r = x / (2 * d);
        assert(2 * d * (r + 1) == 2 * d * r + 2 * d) by (nonlinear_arith);
    }
}

/// Nine categories of merchants have a risk of their own, told by the first
/// four digits; all others, and what is too short, have the middle one.
pub proof fn law_risks_of_categories(code: Seq<u8>)
    ensures
        code.len() < 4 ==> category_risk(code) == 5000,
        code.len() >= 4 ==> {
            let n = 1000 * (code[0] - 48) + 100 * (code[1] - 48) + 10 * (code[2] - 48) + (code[3]
                - 48);
            let r = category_risk(code);
            &&& n == 5411 ==> r == 1500
            &&& n == 5812 ==> r == 3000
            &&& n == 5912 ==> r == 2000
            &&& n == 5944 ==> r == 4500
            &&& n == 7801 ==> r == 8000
            &&& n == 7802 ==> r == 7500
            &&& n == 7995 ==> r == 8500
            &&& n == 4511 ==> r == 3500
            &&& n == 5311 ==> r == 2500
            &&& n != 5411 && n != 5812 && n != 5912 && n != 5944 && n != 7801 && n != 7802 && n
                != 7995 && n != 4511 && n != 5311 ==> r == 5000
        },
{
}

/// What the fourteen coordinates are: the quantised numbers, the hour as a
/// part of 23, the weekday as a part of 6, the minutes since the last
/// transaction as a part of a day, two truth values, whether the merchant is
/// new, and the risk of its category.
pub proof fn law_coordinates_of_a_transaction(tx: TransactionView, q: Quantised)
    ensures
        ({
            let v = tx.vector(q);
            let at = tx.purchase.requested_at;
            &&& v.len() == 14
            &&& v[0] == q.amount
            &&& v[1] == q.installments
            &&& v[2] == q.amount_ratio
            &&& v[3] == ten_thousandths(10 * (at[11] - 48) + (at[12] - 48), 23)
            &&& v[4] == ten_thousandths(weekday(at), 6)
            &&& tx.last is Some ==> v[5] == ten_thousandths(
                minutes_of(at) - minutes_of(tx.last->0.timestamp),
                1440,
            ) && v[6] == q.km_from_last
            &&& tx.last is None ==> v[5] == -10000 && v[6] == -10000
            &&& v[7] == q.km_from_home
            &&& v[8] == q.tx_count
            &&& tx.terminal.is_online ==> v[9] == 10000
            &&& !tx.terminal.is_online ==> v[9] == 0
            &&& tx.terminal.card_present ==> v[10] == 10000
            &&& !tx.terminal.card_present ==> v[10] == 0
            &&& is_known(tx.customer.known_merchants, tx.merchant.id) ==> v[11] == 0
            &&& !is_known(tx.customer.known_merchants, tx.merchant.id) ==> v[11] == 10000
            &&& v[12] == category_risk(tx.merchant.mcc)
            &&& v[13] == q.merchant_avg
        }),
{
    lemma_ten_thousandths(two_digits(tx.purchase.requested_at, 11), 23);
    lemma_ten_thousandths(weekday(tx.purchase.requested_at), 6);
    lemma_ten_thousandths(tx.minutes_since_last(), 1440);
    assert(quoted(tx.merchant.id) =~= seq![34u8] + tx.merchant.id + seq![34u8]);
}

/// Whether a transaction is online tells in one coordinate, by its whole
/// range, and nowhere else; and so for the card.
pub proof fn law_truth_values_have_coordinates_of_their_own(
    a: TransactionView,
    b: TransactionView,
    q: Quantised,
)
    requires
        a.purchase == b.purchase,
        a.customer == b.customer,
        a.merchant == b.merchant,
        a.last == b.last,
    ensures
        forall|d: int| 0 <= d < 14 && d != 9 && d != 10 ==> a.vector(q)[d] == b.vector(q)[d],
        a.terminal.is_online && !b.terminal.is_online ==> a.vector(q)[9] - b.vector(q)[9] == 10000,
        a.terminal.is_online == b.terminal.is_online ==> a.vector(q)[9] == b.vector(q)[9],
        a.terminal.card_present && !b.terminal.card_present ==> a.vector(q)[10] - b.vector(q)[10]
            == 10000,
        a.terminal.card_present == b.terminal.card_present ==> a.vector(q)[10] == b.vector(q)[10],
{
}

/// A vector can be computed if and only if the time has a weekday and an hour,
/// the times of both transactions have minutes, not too many apart, and a
/// category of four bytes or more begins with digits.
pub proof fn law_what_a_vector_needs(tx: TransactionView)
    ensures
        ({
            let at = tx.purchase.requested_at;
            let mcc = tx.merchant.mcc;
            tx.is_computable() <==> has_weekday(at) && has_digits(at, 11, 2) && (tx.last is Some
                ==> has_minutes(at) && has_minutes(tx.last->0.timestamp) && -2147483648
                <= minutes_of(at) - minutes_of(tx.last->0.timestamp) <= 2147483647) && (mcc.len()
                >= 4 ==> has_digits(mcc, 0, 4))
        }),
{
}

} // verus!
