//! From a transaction to the features of its vector.
//!
//! A feature says how one component is computed. The arithmetic itself is done in floating point
//! by whoever evaluates the feature, so the library is generic in the type `N` of the numbers it
//! passes on and in the type `R` of the risks.

use vstd::prelude::*;
use vstd::utf8::{decode_utf8, encode_utf8, valid_utf8};
use crate::ivf::DIM;
use crate::scan::{same_bytes, same_text};
use crate::timestamp::{
    hour_of,
    is_readable,
    is_readable_timestamp,
    lemma_minutes_bound,
    minutes_of,
    parse_iso,
    weekday_of,
};

verus! {

/// How one component of a vector is computed. "Clamped" means limited to the range from 0 to 1.
#[derive(Clone, Copy)]
pub enum Feature<N, R> {
    /// `num / den`.
    Fraction { num: i64, den: u32 },
    /// `count / den`, clamped.
    Clamped { count: u64, den: u32 },
    /// `value / den`, clamped.
    Scaled { value: N, den: u32 },
    /// `(value / by) / den`, clamped.
    Relative { value: N, by: N, den: u32 },
    /// The risk of a merchant category.
    Risk { risk: R },
}

/// A count, as a whole number or as a number yet to be read.
#[derive(Clone, Copy)]
pub enum Count<N> {
    /// A whole number.
    Whole(u32),
    /// A number of the caller's.
    Given(N),
}

/// What is known of the customer's previous transaction.
#[derive(Clone, Copy)]
pub struct LastFacts<N> {
    /// Minutes between the two transactions.
    pub minutes: u64,
    /// Distance between them, in kilometres.
    pub km: N,
}

/// What the features of a transaction depend on.
#[derive(Clone, Copy)]
pub struct Facts<N> {
    /// Amount of the transaction.
    pub amount: N,
    /// Number of installments.
    pub installments: Count<N>,
    /// Customer's average amount.
    pub avg_amount: N,
    /// Hour of the transaction.
    pub hour: u8,
    /// Weekday of the transaction, counted from Monday.
    pub weekday: u8,
    /// The previous transaction, if there is one.
    pub last: Option<LastFacts<N>>,
    /// Distance from the customer's home, in kilometres.
    pub km_from_home: N,
    /// Customer's transactions within a day.
    pub tx_count_24h: Count<N>,
    /// The terminal is online.
    pub is_online: bool,
    /// The card is present.
    pub card_present: bool,
    /// The customer has dealt with the merchant before.
    pub known_merchant: bool,
    /// Merchant's average amount.
    pub merchant_avg_amount: N,
}

/// The feature of a count.
pub open spec fn count_feature<N, R>(count: Count<N>, den: u32) -> Feature<N, R> {
    match count {
        Count::Whole(n) => Feature::Clamped { count: n as u64, den },
        Count::Given(value) => Feature::Scaled { value, den },
    }
}

/// The feature of a yes or no.
pub open spec fn flag_feature<N, R>(flag: bool) -> Feature<N, R> {
    Feature::Fraction {
        num: if flag {
            1
        } else {
            0
        },
        den: 1,
    }
}

/// The feature that stands for the absence of a previous transaction.
pub open spec fn absent_feature<N, R>() -> Feature<N, R> {
    Feature::Fraction { num: (-1) as i64, den: 1 }
}

/// The feature of a risk; a category that is not in the table counts one half.
pub open spec fn risk_feature<N, R>(risk: Option<R>) -> Feature<N, R> {
    match risk {
        Some(risk) => Feature::Risk { risk },
        None => Feature::Fraction { num: 1, den: 2 },
    }
}

/// The features of a transaction, component by component.
pub open spec fn features_of<N, R>(f: Facts<N>, risk: Option<R>) -> Seq<Feature<N, R>> {
    seq![
        Feature::Scaled { value: f.amount, den: 10_000 },
        count_feature(f.installments, 12),
        Feature::Relative { value: f.amount, by: f.avg_amount, den: 10 },
        Feature::Fraction { num: f.hour as i64, den: 23 },
        Feature::Fraction { num: f.weekday as i64, den: 6 },
        match f.last {
            Some(l) => Feature::Clamped { count: l.minutes, den: 1440 },
            None => absent_feature(),
        },
        match f.last {
            Some(l) => Feature::Scaled { value: l.km, den: 1000 },
            None => absent_feature(),
        },
        Feature::Scaled { value: f.km_from_home, den: 1000 },
        count_feature(f.tx_count_24h, 20),
        flag_feature(f.is_online),
        flag_feature(f.card_present),
        flag_feature(!f.known_merchant),
        risk_feature(risk),
        Feature::Scaled { value: f.merchant_avg_amount, den: 10_000 },
    ]
}

/// The feature of a count.
fn count_to_feature<N: Copy, R: Copy>(count: Count<N>, den: u32) -> (r: Feature<N, R>)
    ensures
        r == count_feature::<N, R>(count, den),
{
    match count {
        Count::Whole(n) => Feature::Clamped { count: n as u64, den },
        Count::Given(value) => Feature::Scaled { value, den },
    }
}

/// The feature of a yes or no.
fn flag_to_feature<N: Copy, R: Copy>(flag: bool) -> (r: Feature<N, R>)
    ensures
        r == flag_feature::<N, R>(flag),
{
    Feature::Fraction {
        num: if flag {
            1
        } else {
            0
        },
        den: 1,
    }
}

/// Lays out the features of a transaction.
pub fn features<N: Copy, R: Copy>(f: &Facts<N>, risk: Option<R>) -> (v: [Feature<N, R>; DIM])
    ensures
        v@ == features_of(*f, risk),
{
    let (elapsed, travelled): (Feature<N, R>, Feature<N, R>) = match f.last {
        Some(l) => (
            Feature::Clamped { count: l.minutes, den: 1440 },
            Feature::Scaled { value: l.km, den: 1000 },
        ),
        None => (Feature::Fraction { num: -1, den: 1 }, Feature::Fraction { num: -1, den: 1 }),
    };
    let category: Feature<N, R> = match risk {
        Some(risk) => Feature::Risk { risk },
        None => Feature::Fraction { num: 1, den: 2 },
    };
    let v: [Feature<N, R>; DIM] = [
        Feature::Scaled { value: f.amount, den: 10_000 },
        count_to_feature(f.installments, 12),
        Feature::Relative { value: f.amount, by: f.avg_amount, den: 10 },
        Feature::Fraction { num: f.hour as i64, den: 23 },
        Feature::Fraction { num: f.weekday as i64, den: 6 },
        elapsed,
        travelled,
        Feature::Scaled { value: f.km_from_home, den: 1000 },
        count_to_feature(f.tx_count_24h, 20),
        flag_to_feature(f.is_online),
        flag_to_feature(f.card_present),
        flag_to_feature(!f.known_merchant),
        category,
        Feature::Scaled { value: f.merchant_avg_amount, den: 10_000 },
    ];
    assert(v@ =~= features_of(*f, risk));
    v
}

/// Distance of two moments.
pub open spec fn minutes_between(a: int, b: int) -> int {
    if a < b {
        b - a
    } else {
        a - b
    }
}

/// Distance of two moments.
pub fn minutes_apart(a: i64, b: i64) -> (d: u64)
    requires
        i64::MIN <= a - b <= i64::MAX,
    ensures
        d == minutes_between(a as int, b as int),
{
    if a < b {
        (b as i128 - a as i128) as u64
    } else {
        (a as i128 - b as i128) as u64
    }
}

/// Risks of merchant categories.
pub struct MccTable<R> {
    codes: Vec<String>,
    risks: Vec<R>,
}

/// Where a code stands among `codes`.
spec fn place(codes: Seq<String>, code: Seq<char>) -> Option<int> {
    if exists|i: int| 0 <= i < codes.len() && (#[trigger] codes[i])@ == code {
        Some(choose|i: int| 0 <= i < codes.len() && (#[trigger] codes[i])@ == code)
    } else {
        None
    }
}

impl<R> View for MccTable<R> {
    type V = Map<Seq<char>, R>;

    closed spec fn view(&self) -> Map<Seq<char>, R> {
        Map::new(
            |code: Seq<char>| place(self.codes@, code) is Some,
            |code: Seq<char>| self.risks@[place(self.codes@, code)->0],
        )
    }
}

impl<R> MccTable<R> {
    /// There is one risk per code, and no code stands twice.
    pub closed spec fn wf(&self) -> bool {
        &&& self.codes@.len() == self.risks@.len()
        &&& forall|i: int, j: int|
            0 <= i < j < self.codes@.len() ==> (#[trigger] self.codes@[i])@ != (
            #[trigger] self.codes@[j])@
    }

    proof fn lemma_place(&self, i: int)
        requires
            self.wf(),
            0 <= i < self.codes@.len(),
        ensures
            place(self.codes@, self.codes@[i]@) == Some(i),
            self@.contains_key(self.codes@[i]@),
            self@[self.codes@[i]@] == self.risks@[i],
    {
    }

    /// A table without entries.
    pub fn new() -> (t: Self)
        ensures
            t.wf(),
            t@ == Map::<Seq<char>, R>::empty(),
    {
        let t = MccTable { codes: Vec::new(), risks: Vec::new() };
        assert(t@ =~= Map::<Seq<char>, R>::empty());
        t
    }
}

/// The risk that a table gives to a code.
pub open spec fn risk_of<R>(table: Map<Seq<char>, R>, code: Seq<u8>) -> Option<R> {
    if valid_utf8(code) && table.contains_key(decode_utf8(code)) {
        Some(table[decode_utf8(code)])
    } else {
        None
    }
}

impl<R: Copy> MccTable<R> {
    /// Sets the risk of a category.
    pub fn insert(&mut self, mcc: String, risk: R)
        requires
            old(self).wf(),
        ensures
            final(self).wf(),
            final(self)@ == old(self)@.insert(mcc@, risk),
    {
        let n: usize = self.codes.len();
        let mut i: usize = 0;
        while i < n
            invariant
                i <= n,
                n == self.codes@.len(),
                self.wf(),
                *self == *old(self),
                forall|j: int| 0 <= j < i ==> (#[trigger] self.codes@[j])@ != mcc@,
            decreases n - i,
        {
            if same_text(self.codes[i].as_str(), mcc.as_str()) {
                self.risks[i] = risk;
                proof {
                    self.lemma_place(i as int);
                    old(self).lemma_place(i as int);
                    assert forall|c: Seq<char>| c != mcc@ && old(self)@.contains_key(c) implies
                        self@[c] == old(self)@[c] by {
                        let p = place(old(self).codes@, c)->0;
                        assert(old(self).codes@[p]@ == c);
                    }
                    assert(self@ =~= old(self)@.insert(mcc@, risk));
                }
                return ;
            }
            i += 1;
        }
        let ghost code = mcc@;
        self.codes.push(mcc);
        self.risks.push(risk);
        proof {
            assert(self.wf());
            self.lemma_place(n as int);
            assert forall|c: Seq<char>| c != code implies place(self.codes@, c) == place(
                old(self).codes@,
                c,
            ) by {
                if place(old(self).codes@, c) is Some {
                    let p = place(old(self).codes@, c)->0;
                    assert(old(self).codes@[p]@ == c);
                    self.lemma_place(p);
                } else if place(self.codes@, c) is Some {
                    let p = place(self.codes@, c)->0;
                    assert(self.codes@[p]@ == c);
                    assert(old(self).codes@[p]@ == c);
                }
            }
            assert forall|c: Seq<char>| c != code && old(self)@.contains_key(c) implies self@[c]
                == old(self)@[c] by {
                let p = place(old(self).codes@, c)->0;
                assert(old(self).codes@[p]@ == c);
            }
            assert(self@ =~= old(self)@.insert(code, risk));
        }
    }

    /// The risk of a category, or `None` for one that is not in the table.
    pub fn lookup(&self, mcc: &str) -> (r: Option<R>)
        requires
            self.wf(),
        ensures
            r == if self@.contains_key(mcc@) {
                Some(self@[mcc@])
            } else {
                None
            },
            r == risk_of(self@, encode_utf8(mcc@)),
    {
        proof {
            vstd::utf8::encode_utf8_decode_utf8(mcc@);
            vstd::utf8::encode_utf8_valid_utf8(mcc@);
        }
        self.lookup_bytes(mcc.as_bytes())
    }

    /// The risk of a category given by the bytes of its code, or `None` for one that is not in
    /// the table or not a text at all.
    pub fn lookup_bytes(&self, mcc: &[u8]) -> (r: Option<R>)
        requires
            self.wf(),
        ensures
            r == risk_of(self@, mcc@),
    {
        let n: usize = self.codes.len();
        let mut i: usize = 0;
        while i < n
            invariant
                i <= n,
                n == self.codes@.len(),
                self.wf(),
                forall|j: int|
                    0 <= j < i ==> encode_utf8((#[trigger] self.codes@[j])@) != mcc@,
            decreases n - i,
        {
            if same_bytes(self.codes[i].as_str().as_bytes(), mcc) {
                proof {
                    let code = self.codes@[i as int]@;
                    vstd::utf8::encode_utf8_decode_utf8(code);
                    vstd::utf8::encode_utf8_valid_utf8(code);
                    self.lemma_place(i as int);
                }
                return Some(self.risks[i]);
            }
            i += 1;
        }
        proof {
            if valid_utf8(mcc@) && self@.contains_key(decode_utf8(mcc@)) {
                vstd::utf8::decode_utf8_encode_utf8(mcc@);
                let p = place(self.codes@, decode_utf8(mcc@))->0;
                assert(self.codes@[p]@ == decode_utf8(mcc@));
                assert(encode_utf8(self.codes@[p]@) != mcc@);
            }
        }
        None
    }
}

/// A transaction to be scored.
pub struct Payload<N> {
    /// The transaction.
    pub transaction: Transaction<N>,
    /// Who pays.
    pub customer: Customer<N>,
    /// Who is paid.
    pub merchant: Merchant<N>,
    /// Where it happens.
    pub terminal: Terminal<N>,
    /// The customer's previous transaction.
    pub last_transaction: Option<LastTx<N>>,
}

/// What is bought, and when.
pub struct Transaction<N> {
    /// Amount.
    pub amount: N,
    /// Number of installments.
    pub installments: u32,
    /// Timestamp.
    pub requested_at: String,
}

/// Who pays.
pub struct Customer<N> {
    /// Average amount.
    pub avg_amount: N,
    /// Transactions within a day.
    pub tx_count_24h: u32,
    /// Merchants dealt with before.
    pub known_merchants: Vec<String>,
}

/// Who is paid.
pub struct Merchant<N> {
    /// Identifier.
    pub id: String,
    /// Category code.
    pub mcc: String,
    /// Average amount.
    pub avg_amount: N,
}

/// Where a transaction happens.
pub struct Terminal<N> {
    /// The terminal is online.
    pub is_online: bool,
    /// The card is present.
    pub card_present: bool,
    /// Distance from the customer's home, in kilometres.
    pub km_from_home: N,
}

/// A previous transaction.
pub struct LastTx<N> {
    /// Timestamp.
    pub timestamp: String,
    /// Distance to the present transaction, in kilometres.
    pub km_from_current: N,
}

/// One of `names` reads as `name`.
pub open spec fn is_named(names: Seq<String>, name: Seq<char>) -> bool {
    exists|i: int| 0 <= i < names.len() && (#[trigger] names[i])@ == name
}

/// Looks a name up.
fn is_among(names: &Vec<String>, name: &String) -> (b: bool)
    ensures
        b == is_named(names@, name@),
{
    let mut i: usize = 0;
    while i < names.len()
        invariant
            i <= names@.len(),
            forall|j: int| 0 <= j < i ==> (#[trigger] names@[j])@ != name@,
        decreases names@.len() - i,
    {
        if same_text(names[i].as_str(), name.as_str()) {
            return true;
        }
        i += 1;
    }
    false
}

impl<N> Payload<N> {
    /// The timestamps can be read.
    pub open spec fn is_readable(&self) -> bool {
        &&& is_readable(encode_utf8(self.transaction.requested_at@))
        &&& self.last_transaction matches Some(l) ==> is_readable(encode_utf8(l.timestamp@))
    }

    /// What the features depend on.
    pub open spec fn facts(&self) -> Facts<N> {
        let at = encode_utf8(self.transaction.requested_at@);
        Facts {
            amount: self.transaction.amount,
            installments: Count::Whole(self.transaction.installments),
            avg_amount: self.customer.avg_amount,
            hour: hour_of(at) as u8,
            weekday: weekday_of(at) as u8,
            last: match self.last_transaction {
                Some(l) => Some(
                    LastFacts {
                        minutes: minutes_between(
                            minutes_of(at),
                            minutes_of(encode_utf8(l.timestamp@)),
                        ) as u64,
                        km: l.km_from_current,
                    },
                ),
                None => None,
            },
            km_from_home: self.terminal.km_from_home,
            tx_count_24h: Count::Whole(self.customer.tx_count_24h),
            is_online: self.terminal.is_online,
            card_present: self.terminal.card_present,
            known_merchant: is_named(self.customer.known_merchants@, self.merchant.id@),
            merchant_avg_amount: self.merchant.avg_amount,
        }
    }

    /// Tests that the timestamps can be read.
    pub fn has_readable_timestamps(&self) -> (ok: bool)
        ensures
            ok == self.is_readable(),
    {
        if !is_readable_timestamp(self.transaction.requested_at.as_str().as_bytes()) {
            return false;
        }
        match &self.last_transaction {
            Some(l) => is_readable_timestamp(l.timestamp.as_str().as_bytes()),
            None => true,
        }
    }
}

/// The features of a transaction.
pub fn vectorize<N: Copy, R: Copy>(p: &Payload<N>, mcc: &MccTable<R>) -> (v: [Feature<N, R>; DIM])
    requires
        p.is_readable(),
        mcc.wf(),
    ensures
        v@ == features_of(
            p.facts(),
            risk_of(mcc@, encode_utf8(p.merchant.mcc@)),
        ),
{
    let (hour, weekday, at) = parse_iso(p.transaction.requested_at.as_str().as_bytes());
    let last: Option<LastFacts<N>> = match &p.last_transaction {
        Some(l) => {
            let (_, _, before) = parse_iso(l.timestamp.as_str().as_bytes());
            proof {
                lemma_minutes_bound(encode_utf8(p.transaction.requested_at@));
                lemma_minutes_bound(encode_utf8(l.timestamp@));
            }
            Some(LastFacts { minutes: minutes_apart(at, before), km: l.km_from_current })
        },
        None => None,
    };
    let facts = Facts {
        amount: p.transaction.amount,
        installments: Count::Whole(p.transaction.installments),
        avg_amount: p.customer.avg_amount,
        hour,
        weekday,
        last,
        km_from_home: p.terminal.km_from_home,
        tx_count_24h: Count::Whole(p.customer.tx_count_24h),
        is_online: p.terminal.is_online,
        card_present: p.terminal.card_present,
        known_merchant: is_among(&p.customer.known_merchants, &p.merchant.id),
        merchant_avg_amount: p.merchant.avg_amount,
    };
    assert(facts == p.facts());
    features(&facts, mcc.lookup(p.merchant.mcc.as_str()))
}

} // verus!
