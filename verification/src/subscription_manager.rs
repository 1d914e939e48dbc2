//! Tracking of the market-data subscriptions.
//!
//! The tracker numbers every (un)subscription request, remembers what each
//! outstanding request was for, and keeps the state of every subscribed symbol.
//! It decides what to send and what to change in the markets; sending and the
//! markets themselves are its caller's.
use crate::message::Subscription;
use crate::response::{Contract, Event};
use crate::text::{
    decimal_text, digit_char, is_decimal_digit, law_decimal_text_reads_back, numeral_value,
    push_decimal,
};
use vstd::hash_map::HashMapWithView;
use vstd::prelude::*;

verus! {

broadcast use vstd::std_specs::hash::group_hash_axioms;

/// The state of a subscribed symbol.
#[derive(Clone, Copy, Debug, PartialEq, Eq)]
pub enum SubState {
    Subscribed,
    Unsubscribing,
    Resyncing,
}

/// What an outstanding request was sent for.
#[derive(Debug, PartialEq, Eq)]
pub enum PendingAction {
    Subscribe { symbol: String, contract: Contract },
    Unsubscribe { symbol: String },
    Resubscribe { symbol: String },
}

/// The method of a request.
#[derive(Clone, Copy, Debug, PartialEq, Eq)]
pub enum Method {
    Subscribe,
    Unsubscribe,
}

/// A request to send on the websocket.
#[derive(Debug, PartialEq, Eq)]
pub struct Request {
    pub id: u32,
    pub method: Method,
    pub symbol: String,
    /// The JSON text to send.
    pub text: String,
}

/// What an answer to a request calls for.
#[derive(Debug, PartialEq, Eq)]
pub enum AckOutcome {
    /// The answer is to no outstanding request.
    Ignored,
    /// The server refused the request, for this reason.
    Refused { msg: String },
    /// Add a market for `contract` under `symbol`.
    Subscribed { symbol: String, contract: Contract },
    /// Remove the market under `symbol`.
    Unsubscribed { symbol: String },
    /// The book under `symbol` is fed again.
    Resubscribed { symbol: String },
}

/// What a refresh asks for: unsubscribe these symbols, then subscribe these contracts.
#[derive(Debug, PartialEq, Eq)]
pub struct RefreshPlan {
    pub unsubscribe: Vec<String>,
    pub subscribe: Vec<Contract>,
}

/// The depth stream of a symbol.
pub open spec fn topic_of(symbol: Seq<char>) -> Seq<char> {
    symbol + "@depth@100ms"@
}

pub open spec fn method_name(m: Method) -> Seq<char> {
    match m {
        Method::Subscribe => "subscribe"@,
        Method::Unsubscribe => "unsubscribe"@,
    }
}

/// One character inside a JSON string literal, as `serde_json` writes it: `"` and
/// `\` behind a backslash, backspace, tab, line feed, form feed and carriage return
/// as `\b`, `\t`, `\n`, `\f` and `\r`, the other control characters below `0x20`
/// as `\u00` and two lowercase hex digits, every other character as it is.
pub open spec fn json_char_text(c: char) -> Seq<char> {
    let n = c as int;
    if c == '"' || c == '\\' {
        seq!['\\', c]
    } else if n == 8 {
        seq!['\\', 'b']
    } else if n == 9 {
        seq!['\\', 't']
    } else if n == 10 {
        seq!['\\', 'n']
    } else if n == 12 {
        seq!['\\', 'f']
    } else if n == 13 {
        seq!['\\', 'r']
    } else if n < 0x20 {
        seq!['\\', 'u', '0', '0', digit_char(n / 16), digit_char(n % 16)]
    } else {
        seq![c]
    }
}

/// The characters of a string, each as `json_char_text` writes it.
pub open spec fn json_escaped(s: Seq<char>) -> Seq<char>
    decreases s.len(),
{
    if s.len() == 0 {
        Seq::empty()
    } else {
        json_escaped(s.drop_last()) + json_char_text(s.last())
    }
}

/// A string as a JSON string literal: quoted, each character escaped.
pub open spec fn json_string_text(s: Seq<char>) -> Seq<char> {
    seq!['"'] + json_escaped(s) + seq!['"']
}

/// The text of a request: `{"id":<id>,"method":"<method>","params":[<topic>]}`,
/// the topic written as a JSON string.
pub open spec fn request_text(id: u32, method: Method, symbol: Seq<char>) -> Seq<char> {
    "{\"id\":"@ + decimal_text(id as nat) + ",\"method\":\""@ + method_name(method)
        + "\",\"params\":["@ + json_string_text(topic_of(symbol)) + "]}"@
}

/// The text of a request starts with `{"id":`, then the request id in decimal
/// digits that read back as the id, then a comma.
pub proof fn law_request_text_carries_id(id: u32, method: Method, symbol: Seq<char>)
    ensures
        ({
            let t = request_text(id, method, symbol);
            let k = decimal_text(id as nat).len() as int;
            &&& 6 + k < t.len()
            &&& t.subrange(0, 6) == "{\"id\":"@
            &&& forall|i: int| 6 <= i < 6 + k ==> is_decimal_digit(#[trigger] t[i])
            &&& t[6 + k] == ','
            &&& numeral_value(t.subrange(6, 6 + k)) == id
        }),
{
    reveal_strlit("{\"id\":");
    reveal_strlit(",\"method\":\"");
    law_decimal_text_reads_back(id as nat);
    let t = request_text(id, method, symbol);
    let a = "{\"id\":"@;
    let dt = decimal_text(id as nat);
    let b = ",\"method\":\""@;
    let k = dt.len() as int;
    let tail = method_name(method) + "\",\"params\":["@ + json_string_text(topic_of(symbol))
        + "]}"@;
    assert(t =~= a + dt + (b + tail));
    assert(t.subrange(0, 6) =~= a);
    assert(t.subrange(6, 6 + k) =~= dt);
    assert forall|i: int| 6 <= i < 6 + k implies is_decimal_digit(#[trigger] t[i]) by {
        assert(t[i] == dt[i - 6]);
    }
    assert(t[6 + k] == b[0]);
}

/// `serde_json::Value::from(s).to_string()`: the string as a JSON string literal.
///
/// Claims that the text is `json_string_text` of the string: `Value::String`
/// displays through the compact formatter, which writes a quote, the string with
/// the characters of its `ESCAPE` table escaped, and a quote.
#[verifier::external_body]
fn json_string(s: &str) -> (r: String)
    ensures
        r@ == json_string_text(s@),
{
    serde_json::Value::from(s).to_string()
}

/// The contracts of the events, event by event.
pub open spec fn contracts_of(events: Seq<Event>) -> Seq<Contract>
    decreases events.len(),
{
    if events.len() == 0 {
        Seq::empty()
    } else {
        contracts_of(events.drop_last()) + events.last().contracts@
    }
}

/// The first contract of each symbol, in order.
pub open spec fn first_of_each_symbol(cs: Seq<Contract>) -> Seq<Contract>
    decreases cs.len(),
{
    if cs.len() == 0 {
        Seq::empty()
    } else {
        let rest = first_of_each_symbol(cs.drop_last());
        if exists|i: int|
            0 <= i < rest.len() && (#[trigger] rest[i]).instrument_symbol@
                == cs.last().instrument_symbol@ {
            rest
        } else {
            rest.push(cs.last())
        }
    }
}

/// Event `i` has a contract at position `j`.
pub open spec fn has_contract_at(events: Seq<Event>, i: int, j: int) -> bool {
    0 <= i < events.len() && 0 <= j < events[i].contracts@.len()
}

/// Contract `j2` of event `i2` comes before contract `j` of event `i`: in an
/// earlier event, or earlier in the same event.
pub open spec fn comes_before(i2: int, j2: int, i: int, j: int) -> bool {
    i2 < i || (i2 == i && j2 < j)
}

/// `c` is contract `j` of event `i`, and no contract before it has its symbol.
pub open spec fn first_of_its_symbol_at(events: Seq<Event>, c: Contract, i: int, j: int) -> bool {
    &&& has_contract_at(events, i, j)
    &&& c == events[i].contracts@[j]
    &&& forall|i2: int, j2: int|
        #[trigger] has_contract_at(events, i2, j2) && comes_before(i2, j2, i, j)
            ==> events[i2].contracts@[j2].instrument_symbol@ != c.instrument_symbol@
}

/// `c` is one of the events' contracts, the first of its symbol.
pub open spec fn is_first_of_its_symbol(events: Seq<Event>, c: Contract) -> bool {
    exists|i: int, j: int| #[trigger] first_of_its_symbol_at(events, c, i, j)
}

/// `plan` subscribes, once per symbol, the first contract of each symbol among the
/// contracts of all the events: every contract's symbol is planned, every planned
/// contract is one of the events' contracts with no earlier contract of its symbol,
/// and no symbol is planned twice.
pub open spec fn plans_first_of_each_symbol(events: Seq<Event>, plan: Seq<Contract>) -> bool {
    &&& forall|i: int, j: int|
        #[trigger] has_contract_at(events, i, j) ==> exists|k: int|
            0 <= k < plan.len() && (#[trigger] plan[k]).instrument_symbol@
                == events[i].contracts@[j].instrument_symbol@
    &&& forall|k: int| 0 <= k < plan.len() ==> is_first_of_its_symbol(events, #[trigger] plan[k])
    &&& forall|k1: int, k2: int|
        0 <= k1 < k2 < plan.len() ==> (#[trigger] plan[k1]).instrument_symbol@ != (
        #[trigger] plan[k2]).instrument_symbol@
}

/// Where the contracts of event `i` start among the contracts of all events.
spec fn contract_offset(events: Seq<Event>, i: int) -> int {
    contracts_of(events.take(i)).len() as int
}

/// No contract before position `p` has the symbol of the contract at `p`.
spec fn first_of_symbol_at(cs: Seq<Contract>, p: int) -> bool {
    &&& 0 <= p < cs.len()
    &&& forall|q: int| 0 <= q < p ==> (#[trigger] cs[q]).instrument_symbol@ != cs[p].instrument_symbol@
}

/// Some contract of `plan` has symbol `s`.
spec fn plans_symbol(plan: Seq<Contract>, s: Seq<char>) -> bool {
    exists|k: int| 0 <= k < plan.len() && (#[trigger] plan[k]).instrument_symbol@ == s
}

/// The contracts of the first `i` events begin the contracts of all of them.
proof fn lemma_contracts_of_prefix(events: Seq<Event>, i: int)
    requires
        0 <= i <= events.len(),
    ensures
        contracts_of(events.take(i)).len() <= contracts_of(events).len(),
        forall|p: int|
            0 <= p < contracts_of(events.take(i)).len() ==> #[trigger] contracts_of(events.take(i))[p]
                == contracts_of(events)[p],
    decreases events.len(),
{
    if i == events.len() {
        assert(events.take(i) =~= events);
    } else {
        let e2 = events.drop_last();
        assert(events.take(i) =~= e2.take(i));
        lemma_contracts_of_prefix(e2, i);
        assert(contracts_of(events) == contracts_of(e2) + events.last().contracts@);
    }
}

/// Contract `j` of event `i` stands at `contract_offset(events, i) + j`.
proof fn lemma_contract_position(events: Seq<Event>, i: int, j: int)
    requires
        has_contract_at(events, i, j),
    ensures
        contract_offset(events, i) + j < contracts_of(events).len(),
        contracts_of(events)[contract_offset(events, i) + j] == events[i].contracts@[j],
        contract_offset(events, i + 1) == contract_offset(events, i) + events[i].contracts@.len(),
{
    let t = events.take(i + 1);
    assert(t.drop_last() =~= events.take(i));
    assert(t.last() == events[i]);
    assert(contracts_of(t) == contracts_of(events.take(i)) + events[i].contracts@);
    lemma_contracts_of_prefix(events, i + 1);
    assert(contracts_of(t)[contract_offset(events, i) + j] == events[i].contracts@[j]);
}

/// The contracts of an earlier event all stand before those of a later one.
proof fn lemma_offsets_grow(events: Seq<Event>, i2: int, i: int)
    requires
        0 <= i2 < i <= events.len(),
    ensures
        contract_offset(events, i2) + events[i2].contracts@.len() <= contract_offset(events, i),
{
    let t = events.take(i2 + 1);
    assert(t.drop_last() =~= events.take(i2));
    assert(t.last() == events[i2]);
    assert(contracts_of(t) == contracts_of(events.take(i2)) + events[i2].contracts@);
    assert(events.take(i).take(i2 + 1) =~= t);
    lemma_contracts_of_prefix(events.take(i), i2 + 1);
}

/// Every position among the contracts of all events is that of some contract of
/// some event.
proof fn lemma_contract_origin(events: Seq<Event>, p: int)
    requires
        0 <= p < contracts_of(events).len(),
    ensures
        exists|i: int, j: int|
            #[trigger] has_contract_at(events, i, j) && p == contract_offset(events, i) + j,
    decreases events.len(),
{
    if events.len() == 0 {
        assert(false);
    }
    let e2 = events.drop_last();
    let n = contracts_of(e2).len() as int;
    assert(contracts_of(events) == contracts_of(e2) + events.last().contracts@);
    if p < n {
        lemma_contract_origin(e2, p);
        let (i, j) = choose|i: int, j: int|
            #[trigger] has_contract_at(e2, i, j) && p == contract_offset(e2, i) + j;
        assert(e2.take(i) =~= events.take(i));
        assert(e2[i] == events[i]);
        assert(has_contract_at(events, i, j));
    } else {
        let i = events.len() - 1;
        assert(events.take(i) =~= e2);
        assert(has_contract_at(events, i, p - n));
    }
}

/// What `first_of_each_symbol` keeps: each kept contract is the first of its
/// symbol, every symbol is kept, and no symbol twice.
proof fn lemma_first_of_each_symbol(cs: Seq<Contract>)
    ensures
        forall|k: int|
            0 <= k < first_of_each_symbol(cs).len() ==> exists|p: int|
                first_of_symbol_at(cs, p) && #[trigger] first_of_each_symbol(cs)[k] == cs[p],
        forall|p: int| 0 <= p < cs.len() ==> plans_symbol(first_of_each_symbol(cs), #[trigger] cs[p].instrument_symbol@),
        forall|k1: int, k2: int|
            0 <= k1 < k2 < first_of_each_symbol(cs).len() ==> (#[trigger] first_of_each_symbol(
                cs,
            )[k1]).instrument_symbol@ != (#[trigger] first_of_each_symbol(cs)[k2]).instrument_symbol@,
    decreases cs.len(),
{
    if cs.len() > 0 {
        let c2 = cs.drop_last();
        let c = cs.last();
        lemma_first_of_each_symbol(c2);
        let rest = first_of_each_symbol(c2);
        let fo = first_of_each_symbol(cs);
        assert forall|p: int| 0 <= p < c2.len() implies cs[p] == #[trigger] c2[p] by {}
        if exists|i: int| 0 <= i < rest.len() && (#[trigger] rest[i]).instrument_symbol@
            == c.instrument_symbol@ {
            assert(fo == rest);
            assert forall|k: int| 0 <= k < fo.len() implies exists|p: int|
                first_of_symbol_at(cs, p) && #[trigger] fo[k] == cs[p] by {
                let p = choose|p: int| first_of_symbol_at(c2, p) && #[trigger] rest[k] == c2[p];
                assert forall|q: int| 0 <= q < p implies (#[trigger] cs[q]).instrument_symbol@
                    != cs[p].instrument_symbol@ by {
                    assert(cs[q] == c2[q] && cs[p] == c2[p]);
                }
                assert(first_of_symbol_at(cs, p));
            }
            assert forall|p: int| 0 <= p < cs.len() implies plans_symbol(
                fo,
                #[trigger] cs[p].instrument_symbol@,
            ) by {
                if p < c2.len() {
                    assert(plans_symbol(rest, c2[p].instrument_symbol@));
                }
            }
        } else {
            assert(fo == rest.push(c));
            assert forall|k: int| 0 <= k < fo.len() implies exists|p: int|
                first_of_symbol_at(cs, p) && #[trigger] fo[k] == cs[p] by {
                if k < rest.len() {
                    let p = choose|p: int| first_of_symbol_at(c2, p) && #[trigger] rest[k] == c2[p];
                    assert(fo[k] == rest[k]);
                    assert forall|q: int| 0 <= q < p implies (#[trigger] cs[q]).instrument_symbol@
                        != cs[p].instrument_symbol@ by {
                        assert(cs[q] == c2[q] && cs[p] == c2[p]);
                    }
                    assert(first_of_symbol_at(cs, p));
                } else {
                    let p = cs.len() - 1;
                    assert forall|q: int| 0 <= q < p implies (#[trigger] cs[q]).instrument_symbol@
                        != cs[p].instrument_symbol@ by {
                        assert(c2[q] == cs[q]);
                        assert(plans_symbol(rest, c2[q].instrument_symbol@));
                    }
                    assert(first_of_symbol_at(cs, p));
                }
            }
            assert forall|p: int| 0 <= p < cs.len() implies plans_symbol(
                fo,
                #[trigger] cs[p].instrument_symbol@,
            ) by {
                if p < c2.len() {
                    assert(plans_symbol(rest, c2[p].instrument_symbol@));
                    let k = choose|k: int|
                        0 <= k < rest.len() && (#[trigger] rest[k]).instrument_symbol@
                            == c2[p].instrument_symbol@;
                    assert(fo[k] == rest[k]);
                } else {
                    assert(fo[rest.len() as int] == c);
                }
            }
            assert forall|k1: int, k2: int| 0 <= k1 < k2 < fo.len() implies (
            #[trigger] fo[k1]).instrument_symbol@ != (#[trigger] fo[k2]).instrument_symbol@ by {
                assert(fo[k1] == rest[k1]);
                if k2 < rest.len() {
                    assert(fo[k2] == rest[k2]);
                }
            }
        }
    }
}

/// A refresh plans the first contract of each symbol among the contracts of all
/// the events, in the events' order: every contract's symbol is subscribed, each
/// subscribed contract is one of the events' contracts with no earlier contract of
/// the same symbol, and no symbol is subscribed twice.
pub proof fn law_refresh_subscribes_first_of_each_symbol(events: Seq<Event>)
    ensures
        plans_first_of_each_symbol(events, first_of_each_symbol(contracts_of(events))),
{
    let cs = contracts_of(events);
    let plan = first_of_each_symbol(cs);
    lemma_first_of_each_symbol(cs);
    assert forall|i: int, j: int| #[trigger] has_contract_at(events, i, j) implies exists|k: int|
        0 <= k < plan.len() && (#[trigger] plan[k]).instrument_symbol@
            == events[i].contracts@[j].instrument_symbol@ by {
        lemma_contract_position(events, i, j);
        let p = contract_offset(events, i) + j;
        assert(plans_symbol(plan, cs[p].instrument_symbol@));
    }
    assert forall|k: int| 0 <= k < plan.len() implies is_first_of_its_symbol(
        events,
        #[trigger] plan[k],
    ) by {
        let p = choose|p: int| first_of_symbol_at(cs, p) && #[trigger] plan[k] == cs[p];
        lemma_contract_origin(events, p);
        let (i, j) = choose|i: int, j: int|
            #[trigger] has_contract_at(events, i, j) && p == contract_offset(events, i) + j;
        lemma_contract_position(events, i, j);
        assert forall|i2: int, j2: int|
            #[trigger] has_contract_at(events, i2, j2) && comes_before(i2, j2, i, j)
                implies events[i2].contracts@[j2].instrument_symbol@ != plan[k].instrument_symbol@ by {
            lemma_contract_position(events, i2, j2);
            if i2 < i {
                lemma_offsets_grow(events, i2, i);
            }
            let q = contract_offset(events, i2) + j2;
            assert(0 <= q < p);
            assert(cs[q].instrument_symbol@ != cs[p].instrument_symbol@);
        }
        assert(first_of_its_symbol_at(events, plan[k], i, j));
    }
    assert(forall|k1: int, k2: int|
        0 <= k1 < k2 < plan.len() ==> (#[trigger] plan[k1]).instrument_symbol@ != (
        #[trigger] plan[k2]).instrument_symbol@);
    assert(plans_first_of_each_symbol(events, plan));
}

/// The states of a list of `(symbol, state)` entries, by symbol text.
pub open spec fn entries_map(s: Seq<(String, SubState)>) -> Map<Seq<char>, SubState> {
    Map::new(
        |k: Seq<char>| exists|i: int| 0 <= i < s.len() && (#[trigger] s[i]).0@ == k,
        |k: Seq<char>| s[choose|i: int| 0 <= i < s.len() && (#[trigger] s[i]).0@ == k].1,
    )
}

/// No symbol text occurs twice.
pub open spec fn unique_keys(s: Seq<(String, SubState)>) -> bool {
    forall|i: int, j: int|
        0 <= i < s.len() && 0 <= j < s.len() && i != j ==> (#[trigger] s[i]).0@ != (#[trigger] s[j]).0@
}

proof fn lemma_entry_lookup(s: Seq<(String, SubState)>, i: int)
    requires
        unique_keys(s),
        0 <= i < s.len(),
    ensures
        entries_map(s).contains_key(s[i].0@),
        entries_map(s)[s[i].0@] == s[i].1,
{
    let k = s[i].0@;
    assert(exists|j: int| 0 <= j < s.len() && (#[trigger] s[j]).0@ == k);
    let j = choose|j: int| 0 <= j < s.len() && (#[trigger] s[j]).0@ == k;
    assert(j == i);
}

proof fn lemma_entries_update(s: Seq<(String, SubState)>, i: int, key: String, v: SubState)
    requires
        unique_keys(s),
        0 <= i < s.len(),
        key@ == s[i].0@,
    ensures
        unique_keys(s.update(i, (key, v))),
        entries_map(s.update(i, (key, v))) == entries_map(s).insert(key@, v),
{
    let t = s.update(i, (key, v));
    assert(unique_keys(t)) by {
        assert forall|a: int, b: int|
            0 <= a < t.len() && 0 <= b < t.len() && a != b implies (#[trigger] t[a]).0@ != (
            #[trigger] t[b]).0@ by {
            assert(t[a].0@ == s[a].0@ && t[b].0@ == s[b].0@);
        }
    }
    let m = entries_map(s).insert(key@, v);
    assert forall|k: Seq<char>| #[trigger] entries_map(t).contains_key(k) <==> m.contains_key(k) by {
        if entries_map(t).contains_key(k) {
            let j = choose|j: int| 0 <= j < t.len() && (#[trigger] t[j]).0@ == k;
            assert(s[j].0@ == k);
        }
        if m.contains_key(k) && k != key@ {
            let j = choose|j: int| 0 <= j < s.len() && (#[trigger] s[j]).0@ == k;
            assert(t[j].0@ == k);
        }
        if k == key@ {
            assert(t[i].0@ == k);
        }
    }
    assert forall|k: Seq<char>| #[trigger] entries_map(t).contains_key(k) implies entries_map(t)[k]
        == m[k] by {
        let j = choose|j: int| 0 <= j < t.len() && (#[trigger] t[j]).0@ == k;
        lemma_entry_lookup(t, j);
        if j != i {
            assert(t[j] == s[j]);
            lemma_entry_lookup(s, j);
        }
    }
    assert(entries_map(t) =~= m);
}

proof fn lemma_entries_push(s: Seq<(String, SubState)>, key: String, v: SubState)
    requires
        unique_keys(s),
        !entries_map(s).contains_key(key@),
    ensures
        unique_keys(s.push((key, v))),
        entries_map(s.push((key, v))) == entries_map(s).insert(key@, v),
{
    let t = s.push((key, v));
    let n = s.len() as int;
    assert forall|a: int| 0 <= a < n implies (#[trigger] s[a]).0@ != key@ by {
        if s[a].0@ == key@ {
            assert(entries_map(s).contains_key(key@));
        }
    }
    assert(unique_keys(t)) by {
        assert forall|a: int, b: int|
            0 <= a < t.len() && 0 <= b < t.len() && a != b implies (#[trigger] t[a]).0@ != (
            #[trigger] t[b]).0@ by {
            if a < n && b < n {
                assert(t[a] == s[a] && t[b] == s[b]);
            } else if a < n {
                assert(t[a] == s[a]);
            } else {
                assert(t[b] == s[b]);
            }
        }
    }
    let m = entries_map(s).insert(key@, v);
    assert forall|k: Seq<char>| #[trigger] entries_map(t).contains_key(k) <==> m.contains_key(k) by {
        if entries_map(t).contains_key(k) && k != key@ {
            let j = choose|j: int| 0 <= j < t.len() && (#[trigger] t[j]).0@ == k;
            assert(j < n);
            assert(s[j].0@ == k);
        }
        if m.contains_key(k) && k != key@ {
            let j = choose|j: int| 0 <= j < s.len() && (#[trigger] s[j]).0@ == k;
            assert(t[j].0@ == k);
        }
        if k == key@ {
            assert(t[n].0@ == k);
        }
    }
    assert forall|k: Seq<char>| #[trigger] entries_map(t).contains_key(k) implies entries_map(t)[k]
        == m[k] by {
        let j = choose|j: int| 0 <= j < t.len() && (#[trigger] t[j]).0@ == k;
        lemma_entry_lookup(t, j);
        if j < n {
            assert(t[j] == s[j]);
            lemma_entry_lookup(s, j);
        }
    }
    assert(entries_map(t) =~= m);
}

proof fn lemma_entries_remove(s: Seq<(String, SubState)>, i: int)
    requires
        unique_keys(s),
        0 <= i < s.len(),
    ensures
        unique_keys(s.remove(i)),
        entries_map(s.remove(i)) == entries_map(s).remove(s[i].0@),
{
    let t = s.remove(i);
    let key = s[i].0@;
    assert(unique_keys(t)) by {
        assert forall|a: int, b: int|
            0 <= a < t.len() && 0 <= b < t.len() && a != b implies (#[trigger] t[a]).0@ != (
            #[trigger] t[b]).0@ by {
            let sa = if a < i { a } else { a + 1 };
            let sb = if b < i { b } else { b + 1 };
            assert(t[a] == s[sa] && t[b] == s[sb]);
        }
    }
    let m = entries_map(s).remove(key);
    assert forall|k: Seq<char>| #[trigger] entries_map(t).contains_key(k) <==> m.contains_key(k) by {
        if entries_map(t).contains_key(k) {
            let j = choose|j: int| 0 <= j < t.len() && (#[trigger] t[j]).0@ == k;
            let sj = if j < i { j } else { j + 1 };
            assert(t[j] == s[sj]);
            assert(s[sj].0@ == k);
            assert(sj != i);
        }
        if m.contains_key(k) {
            let j = choose|j: int| 0 <= j < s.len() && (#[trigger] s[j]).0@ == k;
            assert(j != i);
            let tj = if j < i { j } else { j - 1 };
            assert(t[tj] == s[j]);
            assert(t[tj].0@ == k);
        }
    }
    assert forall|k: Seq<char>| #[trigger] entries_map(t).contains_key(k) implies entries_map(t)[k]
        == m[k] by {
        let j = choose|j: int| 0 <= j < t.len() && (#[trigger] t[j]).0@ == k;
        lemma_entry_lookup(t, j);
        let sj = if j < i { j } else { j + 1 };
        assert(t[j] == s[sj]);
        lemma_entry_lookup(s, sj);
    }
    assert(entries_map(t) =~= m);
}

/// The subscription tracker.
pub struct Tracker {
    pending: HashMapWithView<u32, PendingAction>,
    states: Vec<(String, SubState)>,
    next_id: u32,
}

impl Tracker {
    /// The outstanding requests, by id.
    pub closed spec fn pending_map(&self) -> Map<u32, PendingAction> {
        self.pending@
    }

    /// The states of the subscribed symbols, by symbol text.
    pub closed spec fn state_map(&self) -> Map<Seq<char>, SubState> {
        entries_map(self.states@)
    }

    /// The id the next request will get.
    pub closed spec fn spec_next_id(&self) -> u32 {
        self.next_id
    }

    /// The tracker's invariant: no symbol is tracked twice, ids start at 1, and
    /// every outstanding request has an id below the next one.
    #[verifier::type_invariant]
    pub closed spec fn wf(&self) -> bool {
        &&& unique_keys(self.states@)
        &&& self.next_id >= 1
        &&& forall|id: u32| #[trigger] self.pending@.contains_key(id) ==> 1 <= id < self.next_id
    }

    /// Nothing changed but the outstanding requests.
    pub open spec fn same_states(pre: &Tracker, post: &Tracker) -> bool {
        post.state_map() == pre.state_map() && post.spec_next_id() == pre.spec_next_id()
    }

    /// `req` is the next request, for `action`, which is now outstanding under its id.
    pub open spec fn issues(pre: &Tracker, post: &Tracker, req: &Request, action: PendingAction) -> bool {
        &&& req.id == pre.spec_next_id()
        &&& post.spec_next_id() == pre.spec_next_id() + 1
        &&& post.pending_map() == pre.pending_map().insert(req.id, action)
        &&& req.text@ == request_text(req.id, req.method, req.symbol@)
    }

    /// Subscribing `symbol` for `contract` with request `req`.
    pub open spec fn subscribe_step(
        pre: &Tracker,
        post: &Tracker,
        symbol: String,
        contract: Contract,
        req: &Request,
    ) -> bool {
        &&& Self::issues(pre, post, req, PendingAction::Subscribe { symbol, contract })
        &&& req.method == Method::Subscribe
        &&& req.symbol == symbol
        &&& post.state_map() == pre.state_map()
    }

    /// Unsubscribing `symbol` with request `req`: the symbol is now unsubscribing.
    pub open spec fn unsubscribe_step(pre: &Tracker, post: &Tracker, symbol: String, req: &Request) -> bool {
        &&& Self::issues(pre, post, req, PendingAction::Unsubscribe { symbol })
        &&& req.method == Method::Unsubscribe
        &&& req.symbol == symbol
        &&& post.state_map() == pre.state_map().insert(symbol@, SubState::Unsubscribing)
    }

    /// Handling the answer `ack`, with outcome `out`.
    pub open spec fn ack_step(pre: &Tracker, post: &Tracker, ack: Subscription, out: AckOutcome) -> bool {
        &&& post.spec_next_id() == pre.spec_next_id()
        &&& if !pre.pending_map().contains_key(ack.id) {
            &&& out == AckOutcome::Ignored
            &&& post.pending_map() == pre.pending_map()
            &&& post.state_map() == pre.state_map()
        } else {
            &&& post.pending_map() == pre.pending_map().remove(ack.id)
            &&& match ack.error {
                Some(e) => out == AckOutcome::Refused { msg: e.msg } && post.state_map()
                    == pre.state_map(),
                None => match pre.pending_map()[ack.id] {
                    PendingAction::Subscribe { symbol, contract } => {
                        &&& out == AckOutcome::Subscribed { symbol, contract }
                        &&& post.state_map() == pre.state_map().insert(symbol@, SubState::Subscribed)
                    },
                    PendingAction::Unsubscribe { symbol } => {
                        &&& out == AckOutcome::Unsubscribed { symbol }
                        &&& post.state_map() == pre.state_map().remove(symbol@)
                    },
                    PendingAction::Resubscribe { symbol } => {
                        &&& out == AckOutcome::Resubscribed { symbol }
                        &&& post.state_map() == pre.state_map().insert(symbol@, SubState::Subscribed)
                    },
                },
            }
        }
    }

    /// A resync of `symbol` is due: it is tracked and not resyncing already.
    pub open spec fn resync_due(&self, symbol: Seq<char>) -> bool {
        self.state_map().contains_key(symbol) && self.state_map()[symbol] != SubState::Resyncing
    }

    /// Handling a request to resync `symbol`, with result `r`.
    pub open spec fn resync_step(pre: &Tracker, post: &Tracker, symbol: String, r: Option<Request>) -> bool {
        if pre.resync_due(symbol@) {
            &&& r matches Some(req) && Self::issues(
                pre,
                post,
                &req,
                PendingAction::Resubscribe { symbol },
            ) && req.method == Method::Subscribe && req.symbol == symbol
            &&& post.state_map() == pre.state_map().insert(symbol@, SubState::Resyncing)
        } else {
            &&& r is None
            &&& post.pending_map() == pre.pending_map()
            &&& Self::same_states(pre, post)
        }
    }

    /// An empty tracker whose first request will have id 1.
    pub fn new() -> (r: Tracker)
        ensures
            r.pending_map() == Map::<u32, PendingAction>::empty(),
            r.state_map() == Map::<Seq<char>, SubState>::empty(),
            r.spec_next_id() == 1,
    {
        let r = Tracker { pending: HashMapWithView::new(), states: Vec::new(), next_id: 1 };
        assert(entries_map(r.states@) =~= Map::<Seq<char>, SubState>::empty());
        r
    }

    /// True while a request id can still be issued.
    pub fn can_issue(&self) -> (r: bool)
        ensures
            r == (self.spec_next_id() < u32::MAX),
    {
        self.next_id < u32::MAX
    }

    /// True when a resync of `symbol` would send a request: the symbol is tracked
    /// and not resyncing already.
    pub fn is_resync_due(&self, symbol: &String) -> (r: bool)
        ensures
            r == self.resync_due(symbol@),
    {
        proof {
            use_type_invariant(self);
        }
        match self.find_state(symbol) {
            None => false,
            Some(i) => {
                proof {
                    lemma_entry_lookup(self.states@, i as int);
                }
                match self.states[i].1 {
                    SubState::Resyncing => false,
                    _ => true,
                }
            },
        }
    }

    fn next_id(&mut self) -> (id: u32)
        requires
            old(self).spec_next_id() < u32::MAX,
        ensures
            1 <= id,
            id == old(self).spec_next_id(),
            final(self).spec_next_id() == id + 1,
            final(self).pending_map() == old(self).pending_map(),
            final(self).states@ == old(self).states@,
            forall|k: u32| #[trigger] final(self).pending_map().contains_key(k) ==> 1 <= k < id,
    {
        proof {
            use_type_invariant(&*self);
        }
        let id = self.next_id;
        self.next_id = self.next_id + 1;
        id
    }

    fn add_pending(&mut self, id: u32, action: PendingAction)
        requires
            1 <= id < old(self).spec_next_id(),
        ensures
            final(self).pending_map() == old(self).pending_map().insert(id, action),
            final(self).states@ == old(self).states@,
            final(self).spec_next_id() == old(self).spec_next_id(),
    {
        proof {
            use_type_invariant(&*self);
        }
        let mut pending: HashMapWithView<u32, PendingAction> = HashMapWithView::new();
        std::mem::swap(&mut pending, &mut self.pending);
        pending.insert(id, action);
        self.pending = pending;
    }

    fn take_pending(&mut self, id: u32) -> (r: Option<PendingAction>)
        ensures
            match r {
                Some(a) => old(self).pending_map().contains_key(id) && a == old(self).pending_map()[id]
                    && final(self).pending_map() == old(self).pending_map().remove(id),
                None => !old(self).pending_map().contains_key(id) && final(self).pending_map()
                    == old(self).pending_map(),
            },
            final(self).states@ == old(self).states@,
            final(self).spec_next_id() == old(self).spec_next_id(),
    {
        proof {
            use_type_invariant(&*self);
        }
        let mut pending: HashMapWithView<u32, PendingAction> = HashMapWithView::new();
        std::mem::swap(&mut pending, &mut self.pending);
        let r = pending.remove(&id);
        self.pending = pending;
        r
    }

    fn request(id: u32, method: Method, symbol: &String) -> (r: Request)
        ensures
            r.id == id,
            r.method == method,
            r.symbol == *symbol,
            r.text@ == request_text(id, method, symbol@),
    {
        let mut topic = symbol.clone();
        topic.append("@depth@100ms");
        let quoted = json_string(topic.as_str());
        let mut text = String::from_str("{\"id\":");
        push_decimal(id as u64, &mut text);
        text.append(",\"method\":\"");
        match method {
            Method::Subscribe => text.append("subscribe"),
            Method::Unsubscribe => text.append("unsubscribe"),
        }
        text.append("\",\"params\":[");
        text.append(quoted.as_str());
        text.append("]}");
        Request { id, method, symbol: symbol.clone(), text }
    }

    fn find_state(&self, symbol: &String) -> (r: Option<usize>)
        ensures
            match r {
                Some(i) => i < self.states@.len() && self.states@[i as int].0@ == symbol@,
                None => !self.state_map().contains_key(symbol@),
            },
    {
        let n = self.states.len();
        let mut i: usize = 0;
        while i < n
            invariant
                n == self.states@.len(),
                0 <= i <= n,
                forall|j: int| 0 <= j < i ==> (#[trigger] self.states@[j]).0@ != symbol@,
            decreases n - i,
        {
            if self.states[i].0 == *symbol {
                return Some(i);
            }
            i = i + 1;
        }
        None
    }

    fn set_state(&mut self, symbol: String, st: SubState)
        ensures
            final(self).state_map() == old(self).state_map().insert(symbol@, st),
            final(self).pending_map() == old(self).pending_map(),
            final(self).spec_next_id() == old(self).spec_next_id(),
    {
        proof {
            use_type_invariant(&*self);
        }
        let ghost s = self.states@;
        let found = self.find_state(&symbol);
        let mut states: Vec<(String, SubState)> = Vec::new();
        std::mem::swap(&mut states, &mut self.states);
        match found {
            Some(i) => {
                proof {
                    lemma_entries_update(s, i as int, symbol, st);
                }
                states.set(i, (symbol, st));
            },
            None => {
                proof {
                    lemma_entries_push(s, symbol, st);
                }
                states.push((symbol, st));
            },
        }
        self.states = states;
    }

    fn remove_state(&mut self, symbol: &String)
        ensures
            final(self).state_map() == old(self).state_map().remove(symbol@),
            final(self).pending_map() == old(self).pending_map(),
            final(self).spec_next_id() == old(self).spec_next_id(),
    {
        proof {
            use_type_invariant(&*self);
        }
        let ghost s = self.states@;
        match self.find_state(symbol) {
            Some(i) => {
                proof {
                    lemma_entries_remove(s, i as int);
                }
                let mut states: Vec<(String, SubState)> = Vec::new();
                std::mem::swap(&mut states, &mut self.states);
                states.remove(i);
                self.states = states;
            },
            None => {
                assert(entries_map(s) =~= entries_map(s).remove(symbol@));
            },
        }
    }

    /// Registers a subscription of `symbol` for `contract` and returns the request to send.
    pub fn send_subscribe(&mut self, symbol: String, contract: Contract) -> (r: Request)
        requires
            old(self).spec_next_id() < u32::MAX,
        ensures
            Self::subscribe_step(old(self), final(self), symbol, contract, &r),
    {
        let id = self.next_id();
        let req = Self::request(id, Method::Subscribe, &symbol);
        self.add_pending(id, PendingAction::Subscribe { symbol, contract });
        req
    }

    /// Forgets the subscription request `id`, which could not be sent.
    pub fn subscribe_failed(&mut self, id: u32)
        ensures
            final(self).pending_map() == old(self).pending_map().remove(id),
            Self::same_states(old(self), final(self)),
    {
        self.take_pending(id);
    }

    /// Registers an unsubscription of `symbol`, which is now unsubscribing, and
    /// returns the request to send.
    pub fn send_unsubscribe(&mut self, symbol: String) -> (r: Request)
        requires
            old(self).spec_next_id() < u32::MAX,
        ensures
            Self::unsubscribe_step(old(self), final(self), symbol, &r),
    {
        let id = self.next_id();
        let req = Self::request(id, Method::Unsubscribe, &symbol);
        let key = symbol.clone();
        self.add_pending(id, PendingAction::Unsubscribe { symbol });
        self.set_state(key, SubState::Unsubscribing);
        req
    }

    /// Handles the server's answer to a request: an answer to no outstanding
    /// request is ignored; otherwise the request is no longer outstanding, and
    /// unless the server refused it, a subscription or resubscription marks its
    /// symbol subscribed and an unsubscription forgets its symbol.
    pub fn handle_ack(&mut self, ack: Subscription) -> (r: AckOutcome)
        ensures
            Self::ack_step(old(self), final(self), ack, r),
    {
        let action = match self.take_pending(ack.id) {
            Some(a) => a,
            None => return AckOutcome::Ignored,
        };
        if let Some(error) = ack.error {
            return AckOutcome::Refused { msg: error.msg };
        }
        match action {
            PendingAction::Subscribe { symbol, contract } => {
                let key = symbol.clone();
                self.set_state(key, SubState::Subscribed);
                AckOutcome::Subscribed { symbol, contract }
            },
            PendingAction::Unsubscribe { symbol } => {
                self.remove_state(&symbol);
                AckOutcome::Unsubscribed { symbol }
            },
            PendingAction::Resubscribe { symbol } => {
                let key = symbol.clone();
                self.set_state(key, SubState::Subscribed);
                AckOutcome::Resubscribed { symbol }
            },
        }
    }

    /// Handles a request to resync `symbol`: a symbol that is not tracked, or that
    /// is resyncing already, is left alone; otherwise it becomes resyncing and a
    /// new subscription request is returned, to send once its book is emptied.
    pub fn handle_resync(&mut self, symbol: String) -> (r: Option<Request>)
        requires
            old(self).resync_due(symbol@) ==> old(self).spec_next_id() < u32::MAX,
        ensures
            Self::resync_step(old(self), final(self), symbol, r),
    {
        proof {
            use_type_invariant(&*self);
        }
        match self.find_state(&symbol) {
            None => return None,
            Some(i) => {
                proof {
                    lemma_entry_lookup(self.states@, i as int);
                }
                match self.states[i].1 {
                    SubState::Resyncing => return None,
                    _ => {},
                }
            },
        }
        let key = symbol.clone();
        self.set_state(key, SubState::Resyncing);
        let id = self.next_id();
        let req = Self::request(id, Method::Subscribe, &symbol);
        self.add_pending(id, PendingAction::Resubscribe { symbol });
        Some(req)
    }

    /// Plans a refresh from the latest events: unsubscribe every tracked symbol,
    /// then subscribe the first contract of each symbol among the events' contracts.
    pub fn refresh(&self, events: Vec<Event>) -> (r: RefreshPlan)
        ensures
            r.subscribe@ == first_of_each_symbol(contracts_of(events@)),
            plans_first_of_each_symbol(events@, r.subscribe@),
            forall|i: int|
                0 <= i < r.unsubscribe@.len() ==> self.state_map().contains_key(
                    #[trigger] r.unsubscribe@[i]@,
                ),
            forall|k: Seq<char>|
                #[trigger] self.state_map().contains_key(k) ==> exists|i: int|
                    0 <= i < r.unsubscribe@.len() && (#[trigger] r.unsubscribe@[i])@ == k,
            forall|i: int, j: int|
                0 <= i < j < r.unsubscribe@.len() ==> (#[trigger] r.unsubscribe@[i])@ != (
                #[trigger] r.unsubscribe@[j])@,
    {
        proof {
            use_type_invariant(self);
        }
        let mut unsubscribe: Vec<String> = Vec::new();
        let n = self.states.len();
        let mut i: usize = 0;
        while i < n
            invariant
                n == self.states@.len(),
                0 <= i <= n,
                unique_keys(self.states@),
                unsubscribe@.len() == i,
                forall|j: int| 0 <= j < i ==> (#[trigger] unsubscribe@[j]) == self.states@[j].0,
            decreases n - i,
        {
            unsubscribe.push(self.states[i].0.clone());
            i = i + 1;
        }
        proof {
            let s = self.states@;
            assert forall|j: int| 0 <= j < unsubscribe@.len() implies self.state_map().contains_key(
                #[trigger] unsubscribe@[j]@,
            ) by {
                lemma_entry_lookup(s, j);
            }
            assert forall|a: int, b: int| 0 <= a < b < unsubscribe@.len() implies (
            #[trigger] unsubscribe@[a])@ != (#[trigger] unsubscribe@[b])@ by {
                assert(unsubscribe@[a] == s[a].0 && unsubscribe@[b] == s[b].0);
            }
        }
        let subscribe = Self::first_contracts(&events);
        proof {
            law_refresh_subscribes_first_of_each_symbol(events@);
        }
        let r = RefreshPlan { unsubscribe, subscribe };
        proof {
            let s = self.states@;
            assert forall|k: Seq<char>| #[trigger] self.state_map().contains_key(k) implies exists|
                j: int,
            | 0 <= j < r.unsubscribe@.len() && (#[trigger] r.unsubscribe@[j])@ == k by {
                assert(entries_map(s).contains_key(k));
                let j = choose|j: int| 0 <= j < s.len() && (#[trigger] s[j]).0@ == k;
                assert(r.unsubscribe@[j] == s[j].0);
            }
        }
        r
    }

    fn first_contracts(events: &Vec<Event>) -> (r: Vec<Contract>)
        ensures
            r@ == first_of_each_symbol(contracts_of(events@)),
    {
        let mut kept: Vec<Contract> = Vec::new();
        let ghost mut seen: Seq<Contract> = Seq::empty();
        let n = events.len();
        let mut i: usize = 0;
        while i < n
            invariant
                n == events@.len(),
                0 <= i <= n,
                seen == contracts_of(events@.take(i as int)),
                kept@ == first_of_each_symbol(seen),
            decreases n - i,
        {
            let cs = &events[i].contracts;
            let m = cs.len();
            let mut j: usize = 0;
            assert(events@.take(i + 1).drop_last() =~= events@.take(i as int));
            while j < m
                invariant
                    m == cs@.len(),
                    0 <= j <= m,
                    seen == contracts_of(events@.take(i as int)) + cs@.take(j as int),
                    kept@ == first_of_each_symbol(seen),
                decreases m - j,
            {
                let c = &cs[j];
                let ghost next = seen.push(*c);
                assert(next.drop_last() =~= seen);
                if !Self::has_symbol(&kept, &c.instrument_symbol) {
                    kept.push(c.clone());
                }
                proof {
                    seen = next;
                    assert(seen =~= contracts_of(events@.take(i as int)) + cs@.take(j + 1));
                }
                j = j + 1;
            }
            proof {
                assert(cs@.take(m as int) =~= cs@);
                assert(events@.take(i + 1).last() == events@[i as int]);
            }
            i = i + 1;
        }
        assert(events@.take(n as int) =~= events@);
        kept
    }

    fn has_symbol(kept: &Vec<Contract>, symbol: &String) -> (r: bool)
        ensures
            r == exists|i: int|
                0 <= i < kept@.len() && (#[trigger] kept@[i]).instrument_symbol@ == symbol@,
    {
        let n = kept.len();
        let mut i: usize = 0;
        while i < n
            invariant
                n == kept@.len(),
                0 <= i <= n,
                forall|j: int| 0 <= j < i ==> (#[trigger] kept@[j]).instrument_symbol@ != symbol@,
            decreases n - i,
        {
            if kept[i].instrument_symbol == *symbol {
                return true;
            }
            i = i + 1;
        }
        false
    }
}

/// A request id is never reused: the id the next request gets is not outstanding.
pub proof fn law_issued_id_is_fresh(t: Tracker)
    requires
        t.wf(),
    ensures
        !t.pending_map().contains_key(t.spec_next_id()),
{
}

/// Subscribing a symbol and then getting a positive answer to that request marks
/// the symbol subscribed, asks for its market, and leaves no request outstanding
/// that was not outstanding before.
pub proof fn law_subscribe_then_ack(
    t0: Tracker,
    t1: Tracker,
    t2: Tracker,
    symbol: String,
    contract: Contract,
    req: Request,
    ack: Subscription,
    out: AckOutcome,
)
    requires
        t0.wf(),
        Tracker::subscribe_step(&t0, &t1, symbol, contract, &req),
        Tracker::ack_step(&t1, &t2, ack, out),
        ack.id == req.id,
        ack.error is None,
    ensures
        out == (AckOutcome::Subscribed { symbol, contract }),
        t2.state_map() == t0.state_map().insert(symbol@, SubState::Subscribed),
        t2.pending_map() == t0.pending_map(),
{
    law_issued_id_is_fresh(t0);
    assert(t2.pending_map() =~= t0.pending_map());
}

/// Unsubscribing a symbol and then getting a positive answer to that request
/// forgets the symbol and asks for its market to be removed.
pub proof fn law_unsubscribe_then_ack(
    t0: Tracker,
    t1: Tracker,
    t2: Tracker,
    symbol: String,
    req: Request,
    ack: Subscription,
    out: AckOutcome,
)
    requires
        t0.wf(),
        Tracker::unsubscribe_step(&t0, &t1, symbol, &req),
        Tracker::ack_step(&t1, &t2, ack, out),
        ack.id == req.id,
        ack.error is None,
    ensures
        out == (AckOutcome::Unsubscribed { symbol }),
        !t2.state_map().contains_key(symbol@),
        t2.state_map() == t0.state_map().remove(symbol@),
        t2.pending_map() == t0.pending_map(),
{
    law_issued_id_is_fresh(t0);
    assert(t2.pending_map() =~= t0.pending_map());
    assert(t2.state_map() =~= t0.state_map().remove(symbol@));
}

/// A refused request changes no symbol's state and is no longer outstanding.
pub proof fn law_refused_ack_keeps_states(t0: Tracker, t1: Tracker, ack: Subscription, out: AckOutcome)
    requires
        Tracker::ack_step(&t0, &t1, ack, out),
        ack.error is Some,
    ensures
        t1.state_map() == t0.state_map(),
        !t1.pending_map().contains_key(ack.id),
{
}

/// An answer is acted on once: the same answer arriving again is ignored.
pub proof fn law_ack_handled_once(
    t0: Tracker,
    t1: Tracker,
    t2: Tracker,
    ack: Subscription,
    out1: AckOutcome,
    out2: AckOutcome,
)
    requires
        Tracker::ack_step(&t0, &t1, ack, out1),
        Tracker::ack_step(&t1, &t2, ack, out2),
    ensures
        out2 == AckOutcome::Ignored,
        t2.state_map() == t1.state_map(),
        t2.pending_map() == t1.pending_map(),
{
}

/// Resyncs are deduplicated: once a tracked symbol that was not resyncing has
/// been sent a resubscription, a second resync of it sends nothing and changes
/// nothing.
pub proof fn law_resync_deduplicated(
    t0: Tracker,
    t1: Tracker,
    t2: Tracker,
    symbol: String,
    again: String,
    r1: Option<Request>,
    r2: Option<Request>,
)
    requires
        Tracker::resync_step(&t0, &t1, symbol, r1),
        Tracker::resync_step(&t1, &t2, again, r2),
        t0.resync_due(symbol@),
        again@ == symbol@,
    ensures
        r1 is Some,
        r2 is None,
        t2.state_map() == t1.state_map(),
        t2.pending_map() == t1.pending_map(),
        t2.spec_next_id() == t1.spec_next_id(),
{
}

/// A resync whose resubscription is answered positively leaves the symbol
/// subscribed again.
pub proof fn law_resync_then_ack(
    t0: Tracker,
    t1: Tracker,
    t2: Tracker,
    symbol: String,
    r1: Option<Request>,
    ack: Subscription,
    out: AckOutcome,
)
    requires
        t0.wf(),
        Tracker::resync_step(&t0, &t1, symbol, r1),
        Tracker::ack_step(&t1, &t2, ack, out),
        r1 matches Some(req) && ack.id == req.id,
        ack.error is None,
    ensures
        out == (AckOutcome::Resubscribed { symbol }),
        t2.state_map() == t0.state_map().insert(symbol@, SubState::Subscribed),
        t2.pending_map() == t0.pending_map(),
{
    law_issued_id_is_fresh(t0);
    assert(t2.pending_map() =~= t0.pending_map());
    assert(t2.state_map() =~= t0.state_map().insert(symbol@, SubState::Subscribed));
}

} // verus!
