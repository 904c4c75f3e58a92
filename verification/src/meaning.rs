//! What the features of a transaction stand for.

use vstd::prelude::*;
use vstd::utf8::encode_utf8;
use crate::clock::{
    law_minutes_within_a_date,
    law_timestamps_read_as_shown,
    occurs,
    shows,
    Moment,
};
use crate::ivf::DIM;
use crate::parser::{facts_of, is_scorable, is_vector_of, Fields, LastFields, Numbers};
use crate::timestamp::{
    day_of,
    hour_of,
    is_readable,
    law_weekday_follows_days,
    lemma_minutes_bound,
    minutes_of,
    month_of,
    rem,
    weekday,
    weekday_of,
    year_of,
    zeller_sum,
};
use crate::vectorizer::{features_of, risk_of, Count, Facts, Feature, Payload};

verus! {

/// The number that a feature stands for is `num / den`. A clamped count is no more than the whole.
pub open spec fn stands_for<N, R>(x: Feature<N, R>, num: int, den: int) -> bool {
    den > 0 && match x {
        Feature::Fraction { num: n, den: d } => d > 0 && n * den == num * d,
        Feature::Clamped { count, den: d } => d > 0 && (if count < d {
            count as int
        } else {
            d as int
        }) * den == num * d,
        _ => false,
    }
}

/// The smaller of two numbers.
pub open spec fn least(a: int, b: int) -> int {
    if a < b {
        a
    } else {
        b
    }
}

/// There are as many features as components, and each stands for one fact: shares of a day, a week
/// and a year's installments are limited to 1, a missing previous transaction counts -1, an unknown
/// merchant 1, and a category without a risk one half.
pub proof fn law_features_stand_for_facts<N, R>(f: Facts<N>, risk: Option<R>)
    ensures
        ({
            let v = features_of(f, risk);
            &&& v.len() == DIM
            &&& v[0] matches Feature::Scaled { value, den } && value == f.amount && den == 10_000
            &&& match f.installments {
                Count::Whole(n) => stands_for(v[1], least(n as int, 12), 12),
                Count::Given(x) => v[1] matches Feature::Scaled { value, den } && value == x && den
                    == 12,
            }
            &&& v[2] matches Feature::Relative { value, by, den } && value == f.amount && by
                == f.avg_amount && den == 10
            &&& stands_for(v[3], f.hour as int, 23)
            &&& stands_for(v[4], f.weekday as int, 6)
            &&& match f.last {
                None => stands_for(v[5], -1, 1) && stands_for(v[6], -1, 1),
                Some(l) => stands_for(v[5], least(l.minutes as int, 1440), 1440) && (
                v[6] matches Feature::Scaled { value, den } && value == l.km && den == 1000),
            }
            &&& v[7] matches Feature::Scaled { value, den } && value == f.km_from_home && den
                == 1000
            &&& match f.tx_count_24h {
                Count::Whole(n) => stands_for(v[8], least(n as int, 20), 20),
                Count::Given(x) => v[8] matches Feature::Scaled { value, den } && value == x && den
                    == 20,
            }
            &&& stands_for(v[9], if f.is_online { 1 } else { 0 }, 1)
            &&& stands_for(v[10], if f.card_present { 1 } else { 0 }, 1)
            &&& stands_for(v[11], if f.known_merchant { 0 } else { 1 }, 1)
            &&& match risk {
                Some(r) => v[12] matches Feature::Risk { risk } && risk == r,
                None => stands_for(v[12], 1, 2),
            }
            &&& v[13] matches Feature::Scaled { value, den } && value == f.merchant_avg_amount
                && den == 10_000
        }),
{
}

/// A feature stands for one number only.
pub proof fn law_features_stand_for_one_number<N, R>(
    x: Feature<N, R>,
    a: int,
    b: int,
    c: int,
    d: int,
)
    requires
        stands_for(x, a, b),
        stands_for(x, c, d),
    ensures
        a * d == c * b,
{
    match x {
        Feature::Fraction { num: n, den: e } => {
            let n = n as int;
            let e = e as int;
            assert(a * d == c * b) by (nonlinear_arith)
                requires
                    e > 0,
                    n * b == a * e,
                    n * d == c * e,
            ;
        },
        Feature::Clamped { count, den: e } => {
            let n = if count < e {
                count as int
            } else {
                e as int
            };
            let e = e as int;
            assert(a * d == c * b) by (nonlinear_arith)
                requires
                    e > 0,
                    n * b == a * e,
                    n * d == c * e,
            ;
        },
        _ => {},
    }
}

/// The longer ago the previous transaction was, the greater the fifth component, up to 1 from a day
/// on; nothing else changes it.
pub proof fn law_elapsed_time_grows<N, R>(f: Facts<N>, g: Facts<N>, risk: Option<R>, a: int, b: int)
    requires
        f.last is Some,
        g.last is Some,
        f.last->0.minutes <= g.last->0.minutes,
        stands_for(features_of(f, risk)[5], a, 1440),
        stands_for(features_of(g, risk)[5], b, 1440),
    ensures
        0 <= a <= b <= 1440,
        f.last->0.minutes >= 1440 ==> a == 1440,
        a == 0 <==> f.last->0.minutes == 0,
        f.last->0.minutes < g.last->0.minutes && f.last->0.minutes < 1440 ==> a < b,
{
    law_features_stand_for_facts(f, risk);
    law_features_stand_for_facts(g, risk);
    law_features_stand_for_one_number(
        features_of(f, risk)[5],
        a,
        1440,
        least(f.last->0.minutes as int, 1440),
        1440,
    );
    law_features_stand_for_one_number(
        features_of(g, risk)[5],
        b,
        1440,
        least(g.last->0.minutes as int, 1440),
        1440,
    );
}

/// One of the merchants that the customer has dealt with is the one that is paid.
pub open spec fn deals_again<N>(p: Payload<N>) -> bool {
    exists|i: int|
        0 <= i < p.customer.known_merchants@.len() && #[trigger] p.customer.known_merchants@[i]@
            == p.merchant.id@
}

/// How far two numbers are apart.
pub open spec fn apart(a: int, b: int) -> int {
    if a < b {
        b - a
    } else {
        a - b
    }
}

/// What the features of a payload stand for, in terms of what the payload says. Its timestamp shows
/// the moment `at`.
pub proof fn law_payload_features<N, R>(p: Payload<N>, table: Map<Seq<char>, R>, at: Moment)
    requires
        occurs(at),
        shows(encode_utf8(p.transaction.requested_at@), at),
        p.is_readable(),
    ensures
        ({
            let v = features_of(p.facts(), risk_of(table, encode_utf8(p.merchant.mcc@)));
            let time = encode_utf8(p.transaction.requested_at@);
            &&& v.len() == DIM
            &&& v[0] matches Feature::Scaled { value, den } && value == p.transaction.amount && den
                == 10_000
            &&& stands_for(v[1], least(p.transaction.installments as int, 12), 12)
            &&& v[2] matches Feature::Relative { value, by, den } && value
                == p.transaction.amount && by == p.customer.avg_amount && den == 10
            &&& stands_for(v[3], at.hour, 23)
            &&& stands_for(v[4], weekday_of(time), 6)
            &&& match p.last_transaction {
                None => stands_for(v[5], -1, 1) && stands_for(v[6], -1, 1),
                Some(l) => stands_for(
                    v[5],
                    least(
                        apart(minutes_of(time), minutes_of(encode_utf8(l.timestamp@))),
                        1440,
                    ),
                    1440,
                ) && (v[6] matches Feature::Scaled { value, den } && value == l.km_from_current
                    && den == 1000),
            }
            &&& v[7] matches Feature::Scaled { value, den } && value == p.terminal.km_from_home
                && den == 1000
            &&& stands_for(v[8], least(p.customer.tx_count_24h as int, 20), 20)
            &&& stands_for(v[9], if p.terminal.is_online { 1 } else { 0 }, 1)
            &&& stands_for(v[10], if p.terminal.card_present { 1 } else { 0 }, 1)
            &&& stands_for(v[11], if deals_again(p) { 0 } else { 1 }, 1)
            &&& if table.contains_key(p.merchant.mcc@) {
                v[12] matches Feature::Risk { risk } && risk == table[p.merchant.mcc@]
            } else {
                stands_for(v[12], 1, 2)
            }
            &&& v[13] matches Feature::Scaled { value, den } && value == p.merchant.avg_amount
                && den == 10_000
        }),
{
    let time = encode_utf8(p.transaction.requested_at@);
    law_timestamps_read_as_shown(time, at);
    law_features_stand_for_facts(
        p.facts(),
        risk_of(table, encode_utf8(p.merchant.mcc@)),
    );
    vstd::utf8::encode_utf8_decode_utf8(p.merchant.mcc@);
    vstd::utf8::encode_utf8_valid_utf8(p.merchant.mcc@);
    law_minutes_within_a_date(time, time, at, at);
    lemma_minutes_bound(time);
    law_weekday_follows_days(at.year, at.month, at.day);
    if let Some(l) = p.last_transaction {
        lemma_minutes_bound(encode_utf8(l.timestamp@));
    }
}

/// A weekday fits in a byte.
proof fn lemma_weekday_in_byte(year: int, month: int, day: int)
    ensures
        0 <= weekday(year, month, day) <= 255,
{
    lemma_remainder(zeller_sum(year, month, day));
    lemma_remainder(rem(zeller_sum(year, month, day), 7) + 5);
}

proof fn lemma_remainder(x: int)
    ensures
        -6 <= rem(x, 7) <= 6,
{
}

/// What the features of a payload take from its timestamps, whatever moments they show.
pub proof fn law_payload_features_at_any_time<N, R>(p: Payload<N>, table: Map<Seq<char>, R>)
    requires
        p.is_readable(),
    ensures
        ({
            let v = features_of(p.facts(), risk_of(table, encode_utf8(p.merchant.mcc@)));
            let time = encode_utf8(p.transaction.requested_at@);
            &&& stands_for(v[3], hour_of(time), 23)
            &&& stands_for(v[4], weekday_of(time), 6)
            &&& match p.last_transaction {
                None => stands_for(v[5], -1, 1) && stands_for(v[6], -1, 1),
                Some(l) => stands_for(
                    v[5],
                    least(
                        apart(minutes_of(time), minutes_of(encode_utf8(l.timestamp@))),
                        1440,
                    ),
                    1440,
                ) && (v[6] matches Feature::Scaled { value, den } && value == l.km_from_current
                    && den == 1000),
            }
        }),
{
    let time = encode_utf8(p.transaction.requested_at@);
    law_features_stand_for_facts(p.facts(), risk_of(table, encode_utf8(p.merchant.mcc@)));
    lemma_weekday_in_byte(year_of(time), month_of(time), day_of(time));
    lemma_minutes_bound(time);
    if let Some(l) = p.last_transaction {
        lemma_minutes_bound(encode_utf8(l.timestamp@));
    }
}

/// What comes of a body's fields and of the numbers read of them: nothing if one of the numbers is
/// missing or the previous transaction is not complete, and otherwise features that stand for what
/// the fields say, as those of a payload do.
pub proof fn law_body_features<N, R>(
    v: Option<[Feature<N, R>; DIM]>,
    f: Fields<Seq<u8>>,
    n: Numbers<N>,
    table: Map<Seq<char>, R>,
)
    requires
        is_vector_of(v, f, n, table),
        is_scorable(f, n),
    ensures
        v is Some <==> n.amount is Some && n.installments is Some && n.avg_amount is Some
            && n.tx_count_24h is Some && n.merchant_avg_amount is Some && n.km_from_home is Some
            && match f.last {
            LastFields::Absent => true,
            LastFields::Incomplete => false,
            LastFields::Found { .. } => n.km_from_current is Some,
        },
        v matches Some(a) ==> {
            let x = a@;
            &&& x[0] matches Feature::Scaled { value, den } && Some(value) == n.amount && den
                == 10_000
            &&& x[1] matches Feature::Scaled { value, den } && Some(value) == n.installments && den
                == 12
            &&& x[2] matches Feature::Relative { value, by, den } && Some(value) == n.amount
                && Some(by) == n.avg_amount && den == 10
            &&& stands_for(x[3], hour_of(f.requested_at), 23)
            &&& stands_for(x[4], weekday_of(f.requested_at), 6)
            &&& match f.last {
                LastFields::Found { timestamp, .. } => stands_for(
                    x[5],
                    least(apart(minutes_of(f.requested_at), minutes_of(timestamp)), 1440),
                    1440,
                ) && (x[6] matches Feature::Scaled { value, den } && Some(value)
                    == n.km_from_current && den == 1000),
                _ => stands_for(x[5], -1, 1) && stands_for(x[6], -1, 1),
            }
            &&& x[7] matches Feature::Scaled { value, den } && Some(value) == n.km_from_home && den
                == 1000
            &&& x[8] matches Feature::Scaled { value, den } && Some(value) == n.tx_count_24h && den
                == 20
            &&& stands_for(x[9], if f.is_online { 1 } else { 0 }, 1)
            &&& stands_for(x[10], if f.card_present { 1 } else { 0 }, 1)
            &&& stands_for(x[11], if f.known_merchant { 0 } else { 1 }, 1)
            &&& match risk_of(table, f.mcc) {
                Some(r) => x[12] matches Feature::Risk { risk } && risk == r,
                None => stands_for(x[12], 1, 2),
            }
            &&& x[13] matches Feature::Scaled { value, den } && Some(value)
                == n.merchant_avg_amount && den == 10_000
        },
{
    let time = f.requested_at;
    if let Some(facts) = facts_of(f, n) {
        law_features_stand_for_facts(facts, risk_of(table, f.mcc));
        lemma_weekday_in_byte(year_of(time), month_of(time), day_of(time));
        lemma_minutes_bound(time);
        if let LastFields::Found { timestamp, .. } = f.last {
            lemma_minutes_bound(timestamp);
        }
    }
}

/// A payload can be scored if and only if its timestamps can be read.
pub proof fn law_readable_payloads<N>(p: Payload<N>)
    ensures
        p.is_readable() <==> is_readable(encode_utf8(p.transaction.requested_at@)) && match
        p.last_transaction {
            None => true,
            Some(l) => is_readable(encode_utf8(l.timestamp@)),
        },
{
}

} // verus!
