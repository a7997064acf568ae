//! A transaction, as its JSON text describes it.
use crate::bytes::{
    find_byte, find_match, first_byte, first_match, is_match, lemma_first_byte, lemma_first_match,
    matches_at,
};
use crate::calendar::ZERO;
use crate::scan::{
    after_colon, after_key, after_ws, bool_at, is_blank_up_to, is_value_of, is_written,
    law_numbers_are_read_as_written, law_strings_stand_between_quotes,
    law_truth_values_are_read_as_written, law_values_stand_behind_their_keys,
    law_white_space_is_skipped, number_at, past_colon, read_bool, read_number, read_string,
    seek_key, skip_ws, string_at, Decimal, DecimalView, COLON,
};
use vstd::prelude::*;
use vstd::string::StringSliceAdditionalSpecFns;

verus! {

pub const OPEN_BRACKET: u8 = 91;

pub const CLOSE_BRACKET: u8 = 93;

/// How many decimals can make a number differ from zero. Those behind are too
/// small to be told from zero in double precision.
pub const TELLING_DECIMALS: usize = 323;

/// What is bought, and when.
pub struct Purchase<'a> {
    pub amount: Decimal<'a>,
    pub installments: Decimal<'a>,
    pub requested_at: &'a [u8],
}

/// Who buys.
pub struct Customer<'a> {
    pub avg_amount: Decimal<'a>,
    pub tx_count_24h: Decimal<'a>,
    /// The text of the array, with its brackets.
    pub known_merchants: &'a [u8],
}

/// Who sells.
pub struct Merchant<'a> {
    pub id: &'a [u8],
    pub mcc: &'a [u8],
    pub avg_amount: Decimal<'a>,
}

/// How it is paid.
pub struct Terminal<'a> {
    pub is_online: bool,
    pub card_present: bool,
    pub km_from_home: Decimal<'a>,
}

/// What the same customer bought before.
pub struct LastTransaction<'a> {
    pub timestamp: &'a [u8],
    pub km_from_current: Decimal<'a>,
}

/// All that is known of a transaction.
pub struct Transaction<'a> {
    pub purchase: Purchase<'a>,
    pub customer: Customer<'a>,
    pub merchant: Merchant<'a>,
    pub terminal: Terminal<'a>,
    pub last: Option<LastTransaction<'a>>,
}

pub struct PurchaseView {
    pub amount: DecimalView,
    pub installments: DecimalView,
    pub requested_at: Seq<u8>,
}

pub struct CustomerView {
    pub avg_amount: DecimalView,
    pub tx_count_24h: DecimalView,
    pub known_merchants: Seq<u8>,
}

pub struct MerchantView {
    pub id: Seq<u8>,
    pub mcc: Seq<u8>,
    pub avg_amount: DecimalView,
}

pub struct TerminalView {
    pub is_online: bool,
    pub card_present: bool,
    pub km_from_home: DecimalView,
}

pub struct LastView {
    pub timestamp: Seq<u8>,
    pub km_from_current: DecimalView,
}

pub struct TransactionView {
    pub purchase: PurchaseView,
    pub customer: CustomerView,
    pub merchant: MerchantView,
    pub terminal: TerminalView,
    pub last: Option<LastView>,
}

impl<'a> View for Purchase<'a> {
    type V = PurchaseView;

    open spec fn view(&self) -> PurchaseView {
        PurchaseView {
            amount: self.amount@,
            installments: self.installments@,
            requested_at: self.requested_at@,
        }
    }
}

impl<'a> View for Customer<'a> {
    type V = CustomerView;

    open spec fn view(&self) -> CustomerView {
        CustomerView {
            avg_amount: self.avg_amount@,
            tx_count_24h: self.tx_count_24h@,
            known_merchants: self.known_merchants@,
        }
    }
}

impl<'a> View for Merchant<'a> {
    type V = MerchantView;

    open spec fn view(&self) -> MerchantView {
        MerchantView { id: self.id@, mcc: self.mcc@, avg_amount: self.avg_amount@ }
    }
}

impl<'a> View for Terminal<'a> {
    type V = TerminalView;

    open spec fn view(&self) -> TerminalView {
        TerminalView {
            is_online: self.is_online,
            card_present: self.card_present,
            km_from_home: self.km_from_home@,
        }
    }
}

impl<'a> View for LastTransaction<'a> {
    type V = LastView;

    open spec fn view(&self) -> LastView {
        LastView { timestamp: self.timestamp@, km_from_current: self.km_from_current@ }
    }
}

impl<'a> View for Transaction<'a> {
    type V = TransactionView;

    open spec fn view(&self) -> TransactionView {
        TransactionView {
            purchase: self.purchase@,
            customer: self.customer@,
            merchant: self.merchant@,
            terminal: self.terminal@,
            last: match self.last {
                Some(l) => Some(l@),
                None => None,
            },
        }
    }
}

/// The value behind the next place where the key stands, and the position
/// behind the value.
pub open spec fn number_field(s: Seq<u8>, p: int, key: Seq<u8>) -> Option<(DecimalView, int)> {
    let (found, a) = after_key(s, p, key);
    let (there, b) = after_colon(s, a);
    if found && there {
        match number_at(s, b) {
            (Some(n), c) => Some((n, c)),
            (None, _) => None,
        }
    } else {
        None
    }
}

/// As [`number_field`], for a string. A text without quotes has an empty one.
pub open spec fn string_field(s: Seq<u8>, p: int, key: Seq<u8>) -> Option<(Seq<u8>, int)> {
    let (found, a) = after_key(s, p, key);
    let (there, b) = after_colon(s, a);
    if found && there {
        Some(string_at(s, b))
    } else {
        None
    }
}

/// As [`number_field`], for a truth value.
pub open spec fn bool_field(s: Seq<u8>, p: int, key: Seq<u8>) -> Option<(bool, int)> {
    let (found, a) = after_key(s, p, key);
    let (there, b) = after_colon(s, a);
    if found && there {
        match bool_at(s, b) {
            (Some(v), c) => Some((v, c)),
            (None, _) => None,
        }
    } else {
        None
    }
}

/// The text of the next array behind the word, and the position behind it.
pub open spec fn array_field(s: Seq<u8>, p: int, word: Seq<u8>) -> Option<(Seq<u8>, int)> {
    match first_match(s, p, word) {
        Some(a) => match first_byte(s, a, OPEN_BRACKET) {
            Some(b) => match first_byte(s, b, CLOSE_BRACKET) {
                Some(e) => Some((s.subrange(b, e + 1), e + 1)),
                None => None,
            },
            None => None,
        },
        None => None,
    }
}

/// A number that cannot be told from zero.
pub open spec fn is_zero(n: DecimalView) -> bool {
    &&& forall|i: int| 0 <= i < n.whole.len() ==> #[trigger] n.whole[i] == ZERO
    &&& forall|i: int|
        0 <= i < n.fraction.len() && i < TELLING_DECIMALS ==> #[trigger] n.fraction[i] == ZERO
}

pub open spec fn purchase_at(s: Seq<u8>, p: int) -> Option<(PurchaseView, int)> {
    match number_field(s, p, "amount".spec_bytes()) {
        Some((amount, a)) => match number_field(s, a, "installments".spec_bytes()) {
            Some((installments, b)) => match string_field(s, b, "requested_at".spec_bytes()) {
                Some((requested_at, c)) => if requested_at.len() >= 16 {
                    Some((PurchaseView { amount, installments, requested_at }, c))
                } else {
                    None
                },
                None => None,
            },
            None => None,
        },
        None => None,
    }
}

pub open spec fn customer_at(s: Seq<u8>, p: int) -> Option<(CustomerView, int)> {
    match number_field(s, p, "avg_amount".spec_bytes()) {
        Some((avg_amount, a)) => if is_zero(avg_amount) {
            None
        } else {
            match number_field(s, a, "tx_count_24h".spec_bytes()) {
                Some((tx_count_24h, b)) => match array_field(
                    s,
                    b,
                    "known_merchants".spec_bytes(),
                ) {
                    Some((known_merchants, c)) => Some(
                        (CustomerView { avg_amount, tx_count_24h, known_merchants }, c),
                    ),
                    None => None,
                },
                None => None,
            }
        },
        None => None,
    }
}

pub open spec fn merchant_at(s: Seq<u8>, p: int) -> Option<(MerchantView, int)> {
    match string_field(s, p, "id".spec_bytes()) {
        Some((id, a)) => match string_field(s, a, "mcc".spec_bytes()) {
            Some((mcc, b)) => match number_field(s, b, "avg_amount".spec_bytes()) {
                Some((avg_amount, c)) => Some((MerchantView { id, mcc, avg_amount }, c)),
                None => None,
            },
            None => None,
        },
        None => None,
    }
}

pub open spec fn terminal_at(s: Seq<u8>, p: int) -> Option<(TerminalView, int)> {
    match bool_field(s, p, "is_online".spec_bytes()) {
        Some((is_online, a)) => match bool_field(s, a, "card_present".spec_bytes()) {
            Some((card_present, b)) => match number_field(s, b, "km_from_home".spec_bytes()) {
                Some((km_from_home, c)) => Some(
                    (TerminalView { is_online, card_present, km_from_home }, c),
                ),
                None => None,
            },
            None => None,
        },
        None => None,
    }
}

/// The last transaction, which may be null.
pub open spec fn last_at(s: Seq<u8>, p: int) -> Option<Option<LastView>> {
    match first_match(s, p, "last_transaction".spec_bytes()) {
        Some(a) => match first_byte(s, a, COLON) {
            Some(b) => {
                let v = after_ws(s, b + 1);
                if matches_at(s, v, "null".spec_bytes()) {
                    Some(None)
                } else {
                    match string_field(s, v, "timestamp".spec_bytes()) {
                        Some((timestamp, c)) => if timestamp.len() >= 16 {
                            match number_field(s, c, "km_from_current".spec_bytes()) {
                                Some((km_from_current, _)) => Some(
                                    Some(LastView { timestamp, km_from_current }),
                                ),
                                None => None,
                            }
                        } else {
                            None
                        },
                        None => None,
                    }
                }
            },
            None => None,
        },
        None => None,
    }
}

/// The transaction that a JSON text describes, part after part.
pub open spec fn transaction_in(s: Seq<u8>) -> Option<TransactionView> {
    match purchase_at(s, 0) {
        Some((purchase, a)) => match customer_at(s, a) {
            Some((customer, b)) => match merchant_at(s, b) {
                Some((merchant, c)) => match terminal_at(s, c) {
                    Some((terminal, d)) => match last_at(s, d) {
                        Some(last) => Some(
                            TransactionView { purchase, customer, merchant, terminal, last },
                        ),
                        None => None,
                    },
                    None => None,
                },
                None => None,
            },
            None => None,
        },
        None => None,
    }
}

fn read_number_field<'a>(s: &'a [u8], p: usize, key: &[u8]) -> (res: Option<(Decimal<'a>, usize)>)
    requires
        p <= s.len(),
    ensures
        match res {
            Some((n, e)) => number_field(s@, p as int, key@) == Some((n@, e as int)) && e
                <= s.len() && n@.is_number(),
            None => number_field(s@, p as int, key@) is None,
        },
{
    let mut i: usize = p;
    if !seek_key(s, &mut i, key) {
        return None;
    }
    if !past_colon(s, &mut i) {
        return None;
    }
    match read_number(s, &mut i) {
        Some(n) => Some((n, i)),
        None => None,
    }
}

fn read_string_field<'a>(s: &'a [u8], p: usize, key: &[u8]) -> (res: Option<(&'a [u8], usize)>)
    requires
        p <= s.len(),
    ensures
        match res {
            Some((t, e)) => string_field(s@, p as int, key@) == Some((t@, e as int)) && e
                <= s.len(),
            None => string_field(s@, p as int, key@) is None,
        },
{
    let mut i: usize = p;
    if !seek_key(s, &mut i, key) {
        return None;
    }
    if !past_colon(s, &mut i) {
        return None;
    }
    let t = read_string(s, &mut i);
    Some((t, i))
}

fn read_bool_field(s: &[u8], p: usize, key: &[u8]) -> (res: Option<(bool, usize)>)
    requires
        p <= s.len(),
    ensures
        match res {
            Some((v, e)) => bool_field(s@, p as int, key@) == Some((v, e as int)) && e <= s.len(),
            None => bool_field(s@, p as int, key@) is None,
        },
{
    let mut i: usize = p;
    if !seek_key(s, &mut i, key) {
        return None;
    }
    if !past_colon(s, &mut i) {
        return None;
    }
    match read_bool(s, &mut i) {
        Some(v) => Some((v, i)),
        None => None,
    }
}

fn read_array_field<'a>(s: &'a [u8], p: usize, word: &[u8]) -> (res: Option<(&'a [u8], usize)>)
    requires
        p <= s.len(),
    ensures
        match res {
            Some((t, e)) => array_field(s@, p as int, word@) == Some((t@, e as int)) && e
                <= s.len(),
            None => array_field(s@, p as int, word@) is None,
        },
{
    let a: usize = match find_match(s, p, word) {
        Some(i) => i,
        None => {
            return None;
        },
    };
    let b: usize = match find_byte(s, a, OPEN_BRACKET) {
        Some(i) => i,
        None => {
            return None;
        },
    };
    let e: usize = match find_byte(s, b, CLOSE_BRACKET) {
        Some(i) => i,
        None => {
            return None;
        },
    };
    Some((&s[b..e + 1], e + 1))
}

fn is_zero_number(n: &Decimal) -> (yes: bool)
    ensures
        yes == is_zero(n@),
{
    for i in 0..n.whole.len()
        invariant
            forall|j: int| 0 <= j < i ==> #[trigger] n@.whole[j] == ZERO,
    {
        if n.whole[i] != ZERO {
            assert(n@.whole[i as int] != ZERO);
            return false;
        }
    }
    let mut i: usize = 0;
    while i < n.fraction.len() && i < TELLING_DECIMALS
        invariant
            i <= n.fraction.len(),
            i <= TELLING_DECIMALS,
            forall|j: int| 0 <= j < i ==> #[trigger] n@.fraction[j] == ZERO,
        decreases n.fraction.len() - i,
    {
        if n.fraction[i] != ZERO {
            assert(n@.fraction[i as int] != ZERO);
            return false;
        }
        i = i + 1;
    }
    true
}

fn read_purchase<'a>(s: &'a [u8], p: usize) -> (res: Option<(Purchase<'a>, usize)>)
    requires
        p <= s.len(),
    ensures
        match res {
            Some((x, e)) => purchase_at(s@, p as int) == Some((x@, e as int)) && e <= s.len(),
            None => purchase_at(s@, p as int) is None,
        },
{
    let (amount, a) = match read_number_field(s, p, "amount".as_bytes()) {
        Some(x) => x,
        None => {
            return None;
        },
    };
    let (installments, b) = match read_number_field(s, a, "installments".as_bytes()) {
        Some(x) => x,
        None => {
            return None;
        },
    };
    let (requested_at, c) = match read_string_field(s, b, "requested_at".as_bytes()) {
        Some(x) => x,
        None => {
            return None;
        },
    };
    if requested_at.len() < 16 {
        return None;
    }
    Some((Purchase { amount, installments, requested_at }, c))
}

fn read_customer<'a>(s: &'a [u8], p: usize) -> (res: Option<(Customer<'a>, usize)>)
    requires
        p <= s.len(),
    ensures
        match res {
            Some((x, e)) => customer_at(s@, p as int) == Some((x@, e as int)) && e <= s.len(),
            None => customer_at(s@, p as int) is None,
        },
{
    let (avg_amount, a) = match read_number_field(s, p, "avg_amount".as_bytes()) {
        Some(x) => x,
        None => {
            return None;
        },
    };
    if is_zero_number(&avg_amount) {
        return None;
    }
    let (tx_count_24h, b) = match read_number_field(s, a, "tx_count_24h".as_bytes()) {
        Some(x) => x,
        None => {
            return None;
        },
    };
    let (known_merchants, c) = match read_array_field(s, b, "known_merchants".as_bytes()) {
        Some(x) => x,
        None => {
            return None;
        },
    };
    Some((Customer { avg_amount, tx_count_24h, known_merchants }, c))
}

fn read_merchant<'a>(s: &'a [u8], p: usize) -> (res: Option<(Merchant<'a>, usize)>)
    requires
        p <= s.len(),
    ensures
        match res {
            Some((x, e)) => merchant_at(s@, p as int) == Some((x@, e as int)) && e <= s.len(),
            None => merchant_at(s@, p as int) is None,
        },
{
    let (id, a) = match read_string_field(s, p, "id".as_bytes()) {
        Some(x) => x,
        None => {
            return None;
        },
    };
    let (mcc, b) = match read_string_field(s, a, "mcc".as_bytes()) {
        Some(x) => x,
        None => {
            return None;
        },
    };
    let (avg_amount, c) = match read_number_field(s, b, "avg_amount".as_bytes()) {
        Some(x) => x,
        None => {
            return None;
        },
    };
    Some((Merchant { id, mcc, avg_amount }, c))
}

fn read_terminal<'a>(s: &'a [u8], p: usize) -> (res: Option<(Terminal<'a>, usize)>)
    requires
        p <= s.len(),
    ensures
        match res {
            Some((x, e)) => terminal_at(s@, p as int) == Some((x@, e as int)) && e <= s.len(),
            None => terminal_at(s@, p as int) is None,
        },
{
    let (is_online, a) = match read_bool_field(s, p, "is_online".as_bytes()) {
        Some(x) => x,
        None => {
            return None;
        },
    };
    let (card_present, b) = match read_bool_field(s, a, "card_present".as_bytes()) {
        Some(x) => x,
        None => {
            return None;
        },
    };
    let (km_from_home, c) = match read_number_field(s, b, "km_from_home".as_bytes()) {
        Some(x) => x,
        None => {
            return None;
        },
    };
    Some((Terminal { is_online, card_present, km_from_home }, c))
}

fn read_last<'a>(s: &'a [u8], p: usize) -> (res: Option<Option<LastTransaction<'a>>>)
    requires
        p <= s.len(),
    ensures
        match res {
            Some(Some(x)) => last_at(s@, p as int) == Some(Some(x@)),
            Some(None) => last_at(s@, p as int) == Some(None::<LastView>),
            None => last_at(s@, p as int) is None,
        },
{
    let a: usize = match find_match(s, p, "last_transaction".as_bytes()) {
        Some(i) => i,
        None => {
            return None;
        },
    };
    let b: usize = match find_byte(s, a, COLON) {
        Some(i) => i,
        None => {
            return None;
        },
    };
    let mut v: usize = b + 1;
    skip_ws(s, &mut v);
    if is_match(s, v, "null".as_bytes()) {
        return Some(None);
    }
    let (timestamp, c) = match read_string_field(s, v, "timestamp".as_bytes()) {
        Some(x) => x,
        None => {
            return None;
        },
    };
    if timestamp.len() < 16 {
        return None;
    }
    let (km_from_current, _) = match read_number_field(s, c, "km_from_current".as_bytes()) {
        Some(x) => x,
        None => {
            return None;
        },
    };
    Some(Some(LastTransaction { timestamp, km_from_current }))
}

/// Extracts the transaction from a JSON text, if every part of it can be read.
pub fn extract<'a>(body: &'a [u8]) -> (res: Option<Transaction<'a>>)
    ensures
        match res {
            Some(tx) => transaction_in(body@) == Some(tx@),
            None => transaction_in(body@) is None,
        },
{
    let (purchase, a) = match read_purchase(body, 0) {
        Some(x) => x,
        None => {
            return None;
        },
    };
    let (customer, b) = match read_customer(body, a) {
        Some(x) => x,
        None => {
            return None;
        },
    };
    let (merchant, c) = match read_merchant(body, b) {
        Some(x) => x,
        None => {
            return None;
        },
    };
    let (terminal, d) = match read_terminal(body, c) {
        Some(x) => x,
        None => {
            return None;
        },
    };
    let last = match read_last(body, d) {
        Some(x) => x,
        None => {
            return None;
        },
    };
    Some(Transaction { purchase, customer, merchant, terminal, last })
}

/// From `p` on the key has the number `n` for its value, which ends at `e`.
#[verifier::opaque]
pub open spec fn has_number(s: Seq<u8>, p: int, key: Seq<u8>, n: DecimalView, e: int) -> bool {
    exists|k: int, c: int, v: int| #[trigger] is_value_of(s, p, key, k, c, v) && is_written(s, v, n, e)
}

/// From `p` on the key has the string `t` for its value: what stands between
/// the next two quotes, up to `e`; nothing, if there are no two.
#[verifier::opaque]
pub open spec fn has_string(s: Seq<u8>, p: int, key: Seq<u8>, t: Seq<u8>, e: int) -> bool {
    exists|k: int, c: int, v: int| #[trigger]
        is_value_of(s, p, key, k, c, v) && is_string_from(s, v, t, e)
}

/// The next string from `v` on is `t`, up to `e`.
pub open spec fn is_string_from(s: Seq<u8>, v: int, t: Seq<u8>, e: int) -> bool {
    ||| v + t.len() + 2 <= e <= s.len() && s[e - 1] == 34 && s[e - 2 - t.len()] == 34
        && s.subrange(e - 1 - t.len(), e - 1) == t && (forall|j: int|
        v <= j < e - 2 - t.len() ==> s[j] != 34) && (forall|j: int| 0 <= j < t.len() ==> t[j] != 34)
    ||| t.len() == 0 && e == v && (forall|i: int, j: int|
        v <= i < j < s.len() ==> !(s[i] == 34 && s[j] == 34))
}

/// From `p` on the key has the truth value `b` for its value, which ends at
/// `e`.
#[verifier::opaque]
pub open spec fn has_truth(s: Seq<u8>, p: int, key: Seq<u8>, b: bool, e: int) -> bool {
    exists|k: int, c: int, v: int| #[trigger]
        is_value_of(s, p, key, k, c, v) && if b {
            matches_at(s, v, "true".spec_bytes()) && e == v + "true".spec_bytes().len()
        } else {
            matches_at(s, v, "false".spec_bytes()) && e == v + "false".spec_bytes().len()
        }
}

/// From `p` on the word is followed by the array `t`, brackets included, which
/// ends at `e`.
#[verifier::opaque]
pub open spec fn has_array(s: Seq<u8>, p: int, word: Seq<u8>, t: Seq<u8>, e: int) -> bool {
    exists|w: int|
        {
            let o = e - t.len();
            &&& p <= w <= o
            &&& #[trigger] matches_at(s, w, word)
            &&& forall|i: int| p <= i < w ==> !#[trigger] matches_at(s, i, word)
            &&& o < e <= s.len()
            &&& t == s.subrange(o, e)
            &&& s[o] == 91
            &&& forall|i: int| w <= i < o ==> s[i] != 91
            &&& s[e - 1] == 93
            &&& forall|i: int| o <= i < e - 1 ==> s[i] != 93
        }
}

proof fn lemma_number_field(s: Seq<u8>, p: int, key: Seq<u8>, n: DecimalView, e: int)
    requires
        0 <= p <= s.len(),
    ensures
        number_field(s, p, key) == Some((n, e)) <==> has_number(s, p, key, n, e),
        has_number(s, p, key, n, e) ==> 0 <= e <= s.len(),
{
    reveal(has_number);
    let (found, a) = after_key(s, p, key);
    let (there, b) = after_colon(s, a);
    law_values_stand_behind_their_keys(s, p, key, b);
    if found && there {
        let (k, c) = choose|k: int, c: int| #[trigger] is_value_of(s, p, key, k, c, b);
        assert(is_value_of(s, p, key, k, c, b));
        law_numbers_are_read_as_written(s, b, b, n, e);
    }
    if has_number(s, p, key, n, e) {
        let (k, c, v) = choose|k: int, c: int, v: int| #[trigger]
            is_value_of(s, p, key, k, c, v) && is_written(s, v, n, e);
        law_values_stand_behind_their_keys(s, p, key, v);
        assert(is_value_of(s, p, key, k, c, v));
        assert(v == b && found && there);
    }
}

proof fn lemma_string_from(s: Seq<u8>, v: int, t: Seq<u8>, e: int)
    requires
        0 <= v <= s.len(),
    ensures
        string_at(s, v) == (t, e) <==> is_string_from(s, v, t, e),
{
    if is_string_from(s, v, t, e) {
        if v + t.len() + 2 <= e <= s.len() && s[e - 1] == 34 && s[e - 2 - t.len()] == 34
            && s.subrange(e - 1 - t.len(), e - 1) == t && (forall|j: int|
            v <= j < e - 2 - t.len() ==> s[j] != 34) && (forall|j: int|
            0 <= j < t.len() ==> t[j] != 34) {
            let a = e - 2 - t.len();
            assert forall|j: int| a < j < e - 1 implies s[j] != 34 by {
                assert(s.subrange(e - 1 - t.len(), e - 1)[j - a - 1] == s[j]);
                assert(t[j - a - 1] != 34);
            }
            law_strings_stand_between_quotes(s, v, a, e - 1);
        } else {
            law_strings_stand_between_quotes(s, v, 0, 0);
            assert(t =~= Seq::<u8>::empty());
        }
    }
    if string_at(s, v) == (t, e) {
        lemma_first_byte(s, v, 34);
        if first_byte(s, v, 34) is Some {
            let o = first_byte(s, v, 34)->0;
            lemma_first_byte(s, o + 1, 34);
            if first_byte(s, o + 1, 34) is Some {
                let c = first_byte(s, o + 1, 34)->0;
                assert(t == s.subrange(o + 1, c) && e == c + 1);
                assert(e - 2 - t.len() == o);
                assert forall|j: int| 0 <= j < t.len() implies t[j] != 34 by {
                    assert(t[j] == s[o + 1 + j]);
                }
            }
        }
    }
}

proof fn lemma_string_field(s: Seq<u8>, p: int, key: Seq<u8>, t: Seq<u8>, e: int)
    requires
        0 <= p <= s.len(),
    ensures
        string_field(s, p, key) == Some((t, e)) <==> has_string(s, p, key, t, e),
        has_string(s, p, key, t, e) ==> 0 <= e <= s.len(),
{
    reveal(has_string);
    let (found, a) = after_key(s, p, key);
    let (there, b) = after_colon(s, a);
    law_values_stand_behind_their_keys(s, p, key, b);
    if found && there {
        let (k, c) = choose|k: int, c: int| #[trigger] is_value_of(s, p, key, k, c, b);
        assert(is_value_of(s, p, key, k, c, b));
        lemma_string_from(s, b, t, e);
    }
    if has_string(s, p, key, t, e) {
        let (k, c, v) = choose|k: int, c: int, v: int| #[trigger]
            is_value_of(s, p, key, k, c, v) && is_string_from(s, v, t, e);
        law_values_stand_behind_their_keys(s, p, key, v);
        assert(is_value_of(s, p, key, k, c, v));
        assert(v == b && found && there);
    }
}

proof fn lemma_bool_field(s: Seq<u8>, p: int, key: Seq<u8>, x: bool, e: int)
    requires
        0 <= p <= s.len(),
    ensures
        bool_field(s, p, key) == Some((x, e)) <==> has_truth(s, p, key, x, e),
        has_truth(s, p, key, x, e) ==> 0 <= e <= s.len(),
{
    reveal(has_truth);
    let (found, a) = after_key(s, p, key);
    let (there, b) = after_colon(s, a);
    law_values_stand_behind_their_keys(s, p, key, b);
    if found && there {
        let (k, c) = choose|k: int, c: int| #[trigger] is_value_of(s, p, key, k, c, b);
        assert(is_value_of(s, p, key, k, c, b));
        law_truth_values_are_read_as_written(s, b, b, x, e);
    }
    if has_truth(s, p, key, x, e) {
        let (k, c, v) = choose|k: int, c: int, v: int| #[trigger]
            is_value_of(s, p, key, k, c, v) && if x {
                matches_at(s, v, "true".spec_bytes()) && e == v + "true".spec_bytes().len()
            } else {
                matches_at(s, v, "false".spec_bytes()) && e == v + "false".spec_bytes().len()
            };
        law_values_stand_behind_their_keys(s, p, key, v);
        assert(is_value_of(s, p, key, k, c, v));
        assert(v == b && found && there);
    }
}

proof fn lemma_array_field(s: Seq<u8>, p: int, word: Seq<u8>, t: Seq<u8>, e: int)
    requires
        0 <= p <= s.len(),
    ensures
        array_field(s, p, word) == Some((t, e)) <==> has_array(s, p, word, t, e),
        has_array(s, p, word, t, e) ==> 0 <= e <= s.len(),
{
    reveal(has_array);
    lemma_first_match(s, p, word);
    if first_match(s, p, word) is Some {
        let w = first_match(s, p, word)->0;
        lemma_first_byte(s, w, 91);
        if first_byte(s, w, 91) is Some {
            let o = first_byte(s, w, 91)->0;
            lemma_first_byte(s, o, 93);
            if array_field(s, p, word) == Some((t, e)) {
                assert(matches_at(s, w, word));
                assert(e - t.len() == o);
            }
        }
    }
    if has_array(s, p, word, t, e) {
        let w = choose|w: int|
            {
                let o = e - t.len();
                &&& p <= w <= o
                &&& #[trigger] matches_at(s, w, word)
                &&& forall|i: int| p <= i < w ==> !#[trigger] matches_at(s, i, word)
                &&& o < e <= s.len()
                &&& t == s.subrange(o, e)
                &&& s[o] == 91
                &&& forall|i: int| w <= i < o ==> s[i] != 91
                &&& s[e - 1] == 93
                &&& forall|i: int| o <= i < e - 1 ==> s[i] != 93
            };
        assert(first_match(s, p, word) == Some(w));
        lemma_first_byte(s, w, 91);
        assert(first_byte(s, w, 91) == Some(e - t.len()));
        lemma_first_byte(s, e - t.len(), 93);
        assert(first_byte(s, e - t.len(), 93) == Some(e - 1));
    }
}

/// A digit other than 0 stands before the point, or among the first 323 behind
/// it.
pub open spec fn differs_from_zero(n: DecimalView) -> bool {
    ||| exists|i: int| 0 <= i < n.whole.len() && #[trigger] n.whole[i] != 48
    ||| exists|i: int| 0 <= i < n.fraction.len() && i < 323 && #[trigger] n.fraction[i] != 48
}

/// From `p` on, the first colon behind the word `last_transaction` is followed
/// by null where there was no last transaction, and otherwise by its time and
/// its distance.
#[verifier::opaque]
pub open spec fn describes_last(s: Seq<u8>, p: int, last: Option<LastView>) -> bool {
    exists|w: int, c: int, v: int| #[trigger]
        is_last_at(s, p, w, c, v) && if matches_at(s, v, "null".spec_bytes()) {
            last is None
        } else {
            last is Some && last->0.timestamp.len() >= 16 && exists|a: int, b: int|
                has_string(s, v, "timestamp".spec_bytes(), last->0.timestamp, a)
                    && #[trigger] has_number(
                    s,
                    a,
                    "km_from_current".spec_bytes(),
                    last->0.km_from_current,
                    b,
                )
        }
}

/// The word `last_transaction` stands at `w`, first from `p` on; the next colon
/// stands at `c`, and behind it something other than white space begins at `v`.
pub open spec fn is_last_at(s: Seq<u8>, p: int, w: int, c: int, v: int) -> bool {
    let word = "last_transaction".spec_bytes();
    &&& p <= w <= c < s.len()
    &&& matches_at(s, w, word)
    &&& forall|i: int| p <= i < w ==> !#[trigger] matches_at(s, i, word)
    &&& s[c] == 58
    &&& forall|i: int| w <= i < c ==> s[i] != 58
    &&& is_blank_up_to(s, c + 1, v)
}

/// The text describes the transaction: each field has its own key, each key is
/// looked for behind the value of the field before it, and `e` tells where the
/// values end.
pub open spec fn describes(s: Seq<u8>, tx: TransactionView, e: Seq<int>) -> bool {
    &&& has_number(s, 0, "amount".spec_bytes(), tx.purchase.amount, e[0])
    &&& has_number(s, e[0], "installments".spec_bytes(), tx.purchase.installments, e[1])
    &&& has_string(s, e[1], "requested_at".spec_bytes(), tx.purchase.requested_at, e[2])
    &&& tx.purchase.requested_at.len() >= 16
    &&& has_number(s, e[2], "avg_amount".spec_bytes(), tx.customer.avg_amount, e[3])
    &&& differs_from_zero(tx.customer.avg_amount)
    &&& has_number(s, e[3], "tx_count_24h".spec_bytes(), tx.customer.tx_count_24h, e[4])
    &&& has_array(s, e[4], "known_merchants".spec_bytes(), tx.customer.known_merchants, e[5])
    &&& has_string(s, e[5], "id".spec_bytes(), tx.merchant.id, e[6])
    &&& has_string(s, e[6], "mcc".spec_bytes(), tx.merchant.mcc, e[7])
    &&& has_number(s, e[7], "avg_amount".spec_bytes(), tx.merchant.avg_amount, e[8])
    &&& has_truth(s, e[8], "is_online".spec_bytes(), tx.terminal.is_online, e[9])
    &&& has_truth(s, e[9], "card_present".spec_bytes(), tx.terminal.card_present, e[10])
    &&& has_number(s, e[10], "km_from_home".spec_bytes(), tx.terminal.km_from_home, e[11])
    &&& describes_last(s, e[11], tx.last)
}

proof fn lemma_zero(n: DecimalView)
    ensures
        is_zero(n) <==> !differs_from_zero(n),
{
}

proof fn lemma_last(s: Seq<u8>, p: int, last: Option<LastView>)
    requires
        0 <= p <= s.len(),
    ensures
        last_at(s, p) == Some(last) <==> describes_last(s, p, last),
{
    reveal(describes_last);
    let word = "last_transaction".spec_bytes();
    lemma_first_match(s, p, word);
    if describes_last(s, p, last) {
        let (w, c, v) = choose|w: int, c: int, v: int| #[trigger]
            is_last_at(s, p, w, c, v) && if matches_at(s, v, "null".spec_bytes()) {
                last is None
            } else {
                last is Some && last->0.timestamp.len() >= 16 && exists|a: int, b: int|
                    has_string(s, v, "timestamp".spec_bytes(), last->0.timestamp, a)
                        && #[trigger] has_number(
                        s,
                        a,
                        "km_from_current".spec_bytes(),
                        last->0.km_from_current,
                        b,
                    )
            };
        assert(first_match(s, p, word) == Some(w));
        lemma_first_byte(s, w, 58);
        assert(first_byte(s, w, 58) == Some(c));
        law_white_space_is_skipped(s, c + 1, v);
        if !matches_at(s, v, "null".spec_bytes()) {
            let (a, b) = choose|a: int, b: int|
                has_string(s, v, "timestamp".spec_bytes(), last->0.timestamp, a)
                    && #[trigger] has_number(
                    s,
                    a,
                    "km_from_current".spec_bytes(),
                    last->0.km_from_current,
                    b,
                );
            lemma_string_field(s, v, "timestamp".spec_bytes(), last->0.timestamp, a);
            lemma_number_field(s, a, "km_from_current".spec_bytes(), last->0.km_from_current, b);
        }
    }
    if last_at(s, p) == Some(last) {
        let w = first_match(s, p, word)->0;
        lemma_first_byte(s, w, 58);
        let c = first_byte(s, w, 58)->0;
        let v = after_ws(s, c + 1);
        law_white_space_is_skipped(s, c + 1, v);
        assert(is_last_at(s, p, w, c, v));
        if !matches_at(s, v, "null".spec_bytes()) {
            let a = (string_field(s, v, "timestamp".spec_bytes())->0).1;
            lemma_string_field(s, v, "timestamp".spec_bytes(), last->0.timestamp, a);
            let b = (number_field(s, a, "km_from_current".spec_bytes())->0).1;
            lemma_number_field(s, a, "km_from_current".spec_bytes(), last->0.km_from_current, b);
            assert(has_number(
                s,
                a,
                "km_from_current".spec_bytes(),
                last->0.km_from_current,
                b,
            ));
        }
    }
}

/// A transaction is read if and only if the text describes it: each of its
/// fields is what is written behind its own key, and no field is taken from
/// anywhere else.
pub proof fn law_fields_are_read_behind_their_keys(s: Seq<u8>, tx: TransactionView)
    ensures
        transaction_in(s) == Some(tx) <==> exists|e: Seq<int>| #[trigger] describes(s, tx, e),
{
    if transaction_in(s) == Some(tx) {
        lemma_read_is_described(s, tx);
    }
    if exists|e: Seq<int>| #[trigger] describes(s, tx, e) {
        let e = choose|e: Seq<int>| #[trigger] describes(s, tx, e);
        lemma_described_is_read(s, tx, e);
    }
}

proof fn lemma_purchase(s: Seq<u8>, x: PurchaseView, a: int, b: int, c: int)
    ensures
        has_number(s, 0, "amount".spec_bytes(), x.amount, a) && has_number(
            s,
            a,
            "installments".spec_bytes(),
            x.installments,
            b,
        ) && has_string(s, b, "requested_at".spec_bytes(), x.requested_at, c)
            && x.requested_at.len() >= 16 ==> purchase_at(s, 0) == Some((x, c)) && 0 <= c
            <= s.len(),
{
    lemma_number_field(s, 0, "amount".spec_bytes(), x.amount, a);
    if has_number(s, 0, "amount".spec_bytes(), x.amount, a) {
        lemma_number_field(s, a, "installments".spec_bytes(), x.installments, b);
        if has_number(s, a, "installments".spec_bytes(), x.installments, b) {
            lemma_string_field(s, b, "requested_at".spec_bytes(), x.requested_at, c);
        }
    }
}

proof fn lemma_customer(s: Seq<u8>, p: int, x: CustomerView, a: int, b: int, c: int)
    requires
        0 <= p <= s.len(),
    ensures
        has_number(s, p, "avg_amount".spec_bytes(), x.avg_amount, a) && differs_from_zero(
            x.avg_amount,
        ) && has_number(s, a, "tx_count_24h".spec_bytes(), x.tx_count_24h, b) && has_array(
            s,
            b,
            "known_merchants".spec_bytes(),
            x.known_merchants,
            c,
        ) ==> customer_at(s, p) == Some((x, c)) && 0 <= c <= s.len(),
{
    lemma_zero(x.avg_amount);
    lemma_number_field(s, p, "avg_amount".spec_bytes(), x.avg_amount, a);
    if has_number(s, p, "avg_amount".spec_bytes(), x.avg_amount, a) {
        lemma_number_field(s, a, "tx_count_24h".spec_bytes(), x.tx_count_24h, b);
        if has_number(s, a, "tx_count_24h".spec_bytes(), x.tx_count_24h, b) {
            lemma_array_field(s, b, "known_merchants".spec_bytes(), x.known_merchants, c);
        }
    }
}

proof fn lemma_merchant(s: Seq<u8>, p: int, x: MerchantView, a: int, b: int, c: int)
    requires
        0 <= p <= s.len(),
    ensures
        has_string(s, p, "id".spec_bytes(), x.id, a) && has_string(
            s,
            a,
            "mcc".spec_bytes(),
            x.mcc,
            b,
        ) && has_number(s, b, "avg_amount".spec_bytes(), x.avg_amount, c) ==> merchant_at(s, p)
            == Some((x, c)) && 0 <= c <= s.len(),
{
    lemma_string_field(s, p, "id".spec_bytes(), x.id, a);
    if has_string(s, p, "id".spec_bytes(), x.id, a) {
        lemma_string_field(s, a, "mcc".spec_bytes(), x.mcc, b);
        if has_string(s, a, "mcc".spec_bytes(), x.mcc, b) {
            lemma_number_field(s, b, "avg_amount".spec_bytes(), x.avg_amount, c);
        }
    }
}

proof fn lemma_terminal(s: Seq<u8>, p: int, x: TerminalView, a: int, b: int, c: int)
    requires
        0 <= p <= s.len(),
    ensures
        has_truth(s, p, "is_online".spec_bytes(), x.is_online, a) && has_truth(
            s,
            a,
            "card_present".spec_bytes(),
            x.card_present,
            b,
        ) && has_number(s, b, "km_from_home".spec_bytes(), x.km_from_home, c) ==> terminal_at(s, p)
            == Some((x, c)) && 0 <= c <= s.len(),
{
    lemma_bool_field(s, p, "is_online".spec_bytes(), x.is_online, a);
    if has_truth(s, p, "is_online".spec_bytes(), x.is_online, a) {
        lemma_bool_field(s, a, "card_present".spec_bytes(), x.card_present, b);
        if has_truth(s, a, "card_present".spec_bytes(), x.card_present, b) {
            lemma_number_field(s, b, "km_from_home".spec_bytes(), x.km_from_home, c);
        }
    }
}

proof fn lemma_described_is_read(s: Seq<u8>, tx: TransactionView, e: Seq<int>)
    requires
        describes(s, tx, e),
    ensures
        transaction_in(s) == Some(tx),
{
    lemma_purchase(s, tx.purchase, e[0], e[1], e[2]);
    lemma_customer(s, e[2], tx.customer, e[3], e[4], e[5]);
    lemma_merchant(s, e[5], tx.merchant, e[6], e[7], e[8]);
    lemma_terminal(s, e[8], tx.terminal, e[9], e[10], e[11]);
    lemma_last(s, e[11], tx.last);
}

/// Where the values of a purchase that has been read end.
proof fn lemma_read_purchase(s: Seq<u8>, x: PurchaseView, c: int) -> (at: (int, int))
    requires
        purchase_at(s, 0) == Some((x, c)),
    ensures
        has_number(s, 0, "amount".spec_bytes(), x.amount, at.0),
        has_number(s, at.0, "installments".spec_bytes(), x.installments, at.1),
        has_string(s, at.1, "requested_at".spec_bytes(), x.requested_at, c),
        x.requested_at.len() >= 16,
        0 <= c <= s.len(),
{
    let a = (number_field(s, 0, "amount".spec_bytes())->0).1;
    lemma_number_field(s, 0, "amount".spec_bytes(), x.amount, a);
    let b = (number_field(s, a, "installments".spec_bytes())->0).1;
    lemma_number_field(s, a, "installments".spec_bytes(), x.installments, b);
    lemma_string_field(s, b, "requested_at".spec_bytes(), x.requested_at, c);
    (a, b)
}

/// Where the values of a customer that has been read end.
proof fn lemma_read_customer(s: Seq<u8>, p: int, x: CustomerView, c: int) -> (at: (int, int))
    requires
        0 <= p <= s.len(),
        customer_at(s, p) == Some((x, c)),
    ensures
        has_number(s, p, "avg_amount".spec_bytes(), x.avg_amount, at.0),
        differs_from_zero(x.avg_amount),
        has_number(s, at.0, "tx_count_24h".spec_bytes(), x.tx_count_24h, at.1),
        has_array(s, at.1, "known_merchants".spec_bytes(), x.known_merchants, c),
        0 <= c <= s.len(),
{
    let a = (number_field(s, p, "avg_amount".spec_bytes())->0).1;
    lemma_number_field(s, p, "avg_amount".spec_bytes(), x.avg_amount, a);
    lemma_zero(x.avg_amount);
    let b = (number_field(s, a, "tx_count_24h".spec_bytes())->0).1;
    lemma_number_field(s, a, "tx_count_24h".spec_bytes(), x.tx_count_24h, b);
    lemma_array_field(s, b, "known_merchants".spec_bytes(), x.known_merchants, c);
    (a, b)
}

/// Where the values of a merchant that has been read end.
proof fn lemma_read_merchant(s: Seq<u8>, p: int, x: MerchantView, c: int) -> (at: (int, int))
    requires
        0 <= p <= s.len(),
        merchant_at(s, p) == Some((x, c)),
    ensures
        has_string(s, p, "id".spec_bytes(), x.id, at.0),
        has_string(s, at.0, "mcc".spec_bytes(), x.mcc, at.1),
        has_number(s, at.1, "avg_amount".spec_bytes(), x.avg_amount, c),
        0 <= c <= s.len(),
{
    let a = (string_field(s, p, "id".spec_bytes())->0).1;
    lemma_string_field(s, p, "id".spec_bytes(), x.id, a);
    let b = (string_field(s, a, "mcc".spec_bytes())->0).1;
    lemma_string_field(s, a, "mcc".spec_bytes(), x.mcc, b);
    lemma_number_field(s, b, "avg_amount".spec_bytes(), x.avg_amount, c);
    (a, b)
}

/// Where the values of a terminal that has been read end.
proof fn lemma_read_terminal(s: Seq<u8>, p: int, x: TerminalView, c: int) -> (at: (int, int))
    requires
        0 <= p <= s.len(),
        terminal_at(s, p) == Some((x, c)),
    ensures
        has_truth(s, p, "is_online".spec_bytes(), x.is_online, at.0),
        has_truth(s, at.0, "card_present".spec_bytes(), x.card_present, at.1),
        has_number(s, at.1, "km_from_home".spec_bytes(), x.km_from_home, c),
        0 <= c <= s.len(),
{
    let a = (bool_field(s, p, "is_online".spec_bytes())->0).1;
    lemma_bool_field(s, p, "is_online".spec_bytes(), x.is_online, a);
    let b = (bool_field(s, a, "card_present".spec_bytes())->0).1;
    lemma_bool_field(s, a, "card_present".spec_bytes(), x.card_present, b);
    lemma_number_field(s, b, "km_from_home".spec_bytes(), x.km_from_home, c);
    (a, b)
}

proof fn lemma_read_is_described(s: Seq<u8>, tx: TransactionView)
    requires
        transaction_in(s) == Some(tx),
    ensures
        exists|e: Seq<int>| #[trigger] describes(s, tx, e),
{
    let a = (purchase_at(s, 0)->0).1;
    let b = (customer_at(s, a)->0).1;
    let c = (merchant_at(s, b)->0).1;
    let d = (terminal_at(s, c)->0).1;
    assert(purchase_at(s, 0) == Some((tx.purchase, a)));
    let p = lemma_read_purchase(s, tx.purchase, a);
    let q = lemma_read_customer(s, a, tx.customer, b);
    let r = lemma_read_merchant(s, b, tx.merchant, c);
    let t = lemma_read_terminal(s, c, tx.terminal, d);
    lemma_last(s, d, tx.last);
    let e = seq![p.0, p.1, a, q.0, q.1, b, r.0, r.1, c, t.0, t.1, d];
    assert(describes(s, tx, e));
}

/// The model of a transaction has its fields.
pub proof fn law_models_have_the_fields(tx: Transaction)
    ensures
        tx@.purchase.amount == tx.purchase.amount@,
        tx@.purchase.installments == tx.purchase.installments@,
        tx@.purchase.requested_at == tx.purchase.requested_at@,
        tx@.customer.avg_amount == tx.customer.avg_amount@,
        tx@.customer.tx_count_24h == tx.customer.tx_count_24h@,
        tx@.customer.known_merchants == tx.customer.known_merchants@,
        tx@.merchant.id == tx.merchant.id@,
        tx@.merchant.mcc == tx.merchant.mcc@,
        tx@.merchant.avg_amount == tx.merchant.avg_amount@,
        tx@.terminal.is_online == tx.terminal.is_online,
        tx@.terminal.card_present == tx.terminal.card_present,
        tx@.terminal.km_from_home == tx.terminal.km_from_home@,
        tx@.last is Some <==> tx.last is Some,
        tx.last is Some ==> tx@.last->0.timestamp == tx.last->0.timestamp@
            && tx@.last->0.km_from_current == tx.last->0.km_from_current@,
        tx.purchase.amount@.negative == tx.purchase.amount.negative,
        tx.purchase.amount@.whole == tx.purchase.amount.whole@,
        tx.purchase.amount@.fraction == tx.purchase.amount.fraction@,
{
}

} // verus!
