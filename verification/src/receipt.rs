//! The allocation engine: from a receipt's items (each with a price and the
//! weighted set of people who shared it) and its shared extra costs, compute
//! the adjusted cost of every item and the total owed by every person.
//!
//! All money and weights are fixed-point integers as in [`crate::money`]:
//! amounts count 1/10000 of a currency unit.

use vstd::prelude::*;

use crate::money::{format_money, money_string};
use crate::order::{keys_sorted, lemma_lex_lt_connected, lemma_sorted_from_adjacent, lex_lt, str_lt};

verus! {

/// One line item: its base price and the people who shared it, each with a
/// non-negative weight.
pub struct Item {
    pub price: u64,
    pub people: Vec<(String, u64)>,
}

/// A parsed receipt: named items, named shared extra costs, and the declared
/// grand total used as a consistency check.
pub struct Receipt {
    pub items: Vec<(String, Item)>,
    pub extras: Vec<(String, u64)>,
    pub total: u64,
}

/// Everything that can go wrong once a receipt is in memory.
#[derive(Clone, Copy, PartialEq, Eq, Structural, Debug)]
pub enum ReceiptError {
    /// Extras are nonzero but the item prices sum to zero, so there is no
    /// proportion by which to distribute them.
    ZeroItemPriceTotal,
    /// Some item's person weights sum to zero, so its cost cannot be divided.
    ZeroWeightSum,
    /// The computed sums disagree with the receipt's declared total by more
    /// than the tolerance of 0.01.
    TotalMismatch,
}

impl ReceiptError {
    /// A human-readable description of the error.
    pub fn message(&self) -> (r: &'static str)
        ensures
            r@.len() > 0,
    {
        proof {
            reveal_strlit("extras are nonzero but the item prices sum to zero");
            reveal_strlit("an item's person weights sum to zero");
            reveal_strlit("computed sums disagree with the declared total by more than 0.01");
        }
        match self {
            ReceiptError::ZeroItemPriceTotal => "extras are nonzero but the item prices sum to zero",
            ReceiptError::ZeroWeightSum => "an item's person weights sum to zero",
            ReceiptError::TotalMismatch => "computed sums disagree with the declared total by more than 0.01",
        }
    }
}

/// Sum of the amounts in a sequence of named amounts.
pub open spec fn sum_amounts(entries: Seq<(String, u64)>) -> int
    decreases entries.len(),
{
    if entries.len() == 0 {
        0
    } else {
        sum_amounts(entries.drop_last()) + entries.last().1
    }
}

/// Sum of the item prices of a receipt.
pub open spec fn sum_prices(items: Seq<(String, Item)>) -> int
    decreases items.len(),
{
    if items.len() == 0 {
        0
    } else {
        sum_prices(items.drop_last()) + items.last().1.price
    }
}

/// The adjusted cost of an item with price `price`, where `s` is the sum of
/// all item prices and `e` the sum of all extras: the price plus the price's
/// proportional share of the extras, rounded down to a whole unit. With no
/// priced items the extras cannot be distributed and the price stands alone.
pub open spec fn adjusted_cost(price: int, s: int, e: int) -> int {
    if s > 0 {
        price + price * e / s
    } else {
        price
    }
}

/// Sum of all adjusted item costs.
pub open spec fn sum_adjusted(items: Seq<(String, Item)>, s: int, e: int) -> int
    decreases items.len(),
{
    if items.len() == 0 {
        0
    } else {
        sum_adjusted(items.drop_last(), s, e) + adjusted_cost(items.last().1.price as int, s, e)
    }
}

/// The weight attached to `name` in an item's people list, if present.
pub open spec fn lookup_weight(people: Seq<(String, u64)>, name: Seq<char>) -> Option<u64>
    decreases people.len(),
{
    if people.len() == 0 {
        None
    } else if people.last().0@ == name {
        Some(people.last().1)
    } else {
        lookup_weight(people.drop_last(), name)
    }
}

/// Whether `name` appears in an item's people list.
pub open spec fn person_in_people(people: Seq<(String, u64)>, name: Seq<char>) -> bool {
    lookup_weight(people, name) is Some
}

/// The part of a cost owed by `name`, given a people list and the list's
/// weight sum: the person's weight over the sum, times the cost, rounded
/// down to a whole unit; nothing if the person is not listed.
pub open spec fn share_of(people: Seq<(String, u64)>, cost: int, wsum: int, name: Seq<char>) -> int {
    match lookup_weight(people, name) {
        Some(w) => w * cost / wsum,
        None => 0,
    }
}

/// The share of one item's cost owed by `name`.
pub open spec fn item_share(item: Item, cost: int, name: Seq<char>) -> int {
    share_of(item.people@, cost, sum_amounts(item.people@), name)
}

/// A person's total owed: over all items, their weighted fraction of each
/// item's adjusted cost.
pub open spec fn person_total(items: Seq<(String, Item)>, s: int, e: int, name: Seq<char>) -> int
    decreases items.len(),
{
    if items.len() == 0 {
        0
    } else {
        person_total(items.drop_last(), s, e, name) + item_share(
            items.last().1,
            adjusted_cost(items.last().1.price as int, s, e),
            name,
        )
    }
}

/// Whether `name` appears under any item of the receipt.
pub open spec fn person_appears(items: Seq<(String, Item)>, name: Seq<char>) -> bool {
    exists|i: int| 0 <= i < items.len() && person_in_people((#[trigger] items[i]).1.people@, name)
}

/// What walking a people list hands out of a cost: the sum of the floored
/// per-person shares.
pub open spec fn distributed(people: Seq<(String, u64)>, cost: int, wsum: int) -> int
    decreases people.len(),
{
    if people.len() == 0 {
        0
    } else {
        distributed(people.drop_last(), cost, wsum) + people.last().1 * cost / wsum
    }
}

/// The sum of all per-person shares over the whole receipt.
pub open spec fn total_distributed(items: Seq<(String, Item)>, s: int, e: int) -> int
    decreases items.len(),
{
    if items.len() == 0 {
        0
    } else {
        total_distributed(items.drop_last(), s, e) + distributed(
            items.last().1.people@,
            adjusted_cost(items.last().1.price as int, s, e),
            sum_amounts(items.last().1.people@),
        )
    }
}

/// How many person entries the receipt holds in all, over all items.
pub open spec fn total_people(items: Seq<(String, Item)>) -> int
    decreases items.len(),
{
    if items.len() == 0 {
        0
    } else {
        total_people(items.drop_last()) + items.last().1.people@.len()
    }
}

/// Every item's weights have a positive sum, so every per-item division is
/// defined.
pub open spec fn all_weight_sums_positive(items: Seq<(String, Item)>) -> bool {
    forall|i: int| 0 <= i < items.len() ==> sum_amounts((#[trigger] items[i]).1.people@) > 0
}

/// Two amounts agree within the absolute tolerance of 0.01, that is 100 of
/// the 1/10000 units.
pub open spec fn within_tolerance(a: int, b: int) -> bool {
    -100 <= a - b <= 100
}

impl Item {
    /// People are keyed by distinct, sorted names, and their weights can be
    /// summed without overflow.
    pub open spec fn wf(self) -> bool {
        &&& keys_sorted(self.people@)
        &&& sum_amounts(self.people@) <= u64::MAX
    }
}

impl Receipt {
    /// Items and extras are keyed by distinct, sorted names, every item is
    /// well formed, and the sum of all prices and extras fits a `u64`.
    pub open spec fn wf(self) -> bool {
        &&& keys_sorted(self.items@)
        &&& keys_sorted(self.extras@)
        &&& forall|i: int| 0 <= i < self.items@.len() ==> (#[trigger] self.items@[i]).1.wf()
        &&& sum_prices(self.items@) + sum_amounts(self.extras@) <= u64::MAX
    }
}

pub proof fn lemma_sum_amounts_nonneg(entries: Seq<(String, u64)>)
    ensures
        sum_amounts(entries) >= 0,
    decreases entries.len(),
{
    if entries.len() > 0 {
        lemma_sum_amounts_nonneg(entries.drop_last());
    }
}

pub proof fn lemma_sum_amounts_take_step(entries: Seq<(String, u64)>, i: int)
    requires
        0 <= i < entries.len(),
    ensures
        sum_amounts(entries.take(i + 1)) == sum_amounts(entries.take(i)) + entries[i].1,
{
    assert(entries.take(i + 1).drop_last() =~= entries.take(i));
}

pub proof fn lemma_sum_amounts_prefix_le(entries: Seq<(String, u64)>, i: int)
    requires
        0 <= i <= entries.len(),
    ensures
        sum_amounts(entries.take(i)) <= sum_amounts(entries),
    decreases entries.len() - i,
{
    if i == entries.len() {
        assert(entries.take(i) =~= entries);
    } else {
        lemma_sum_amounts_take_step(entries, i);
        lemma_sum_amounts_prefix_le(entries, i + 1);
    }
}

pub proof fn lemma_sum_amounts_element(entries: Seq<(String, u64)>, i: int)
    requires
        0 <= i < entries.len(),
    ensures
        entries[i].1 <= sum_amounts(entries),
{
    lemma_sum_amounts_take_step(entries, i);
    lemma_sum_amounts_prefix_le(entries, i + 1);
    lemma_sum_amounts_nonneg(entries.take(i));
}

pub proof fn lemma_sum_prices_nonneg(items: Seq<(String, Item)>)
    ensures
        sum_prices(items) >= 0,
    decreases items.len(),
{
    if items.len() > 0 {
        lemma_sum_prices_nonneg(items.drop_last());
    }
}

pub proof fn lemma_sum_prices_take_step(items: Seq<(String, Item)>, i: int)
    requires
        0 <= i < items.len(),
    ensures
        sum_prices(items.take(i + 1)) == sum_prices(items.take(i)) + items[i].1.price,
{
    assert(items.take(i + 1).drop_last() =~= items.take(i));
}

pub proof fn lemma_sum_prices_prefix_le(items: Seq<(String, Item)>, i: int)
    requires
        0 <= i <= items.len(),
    ensures
        sum_prices(items.take(i)) <= sum_prices(items),
    decreases items.len() - i,
{
    if i == items.len() {
        assert(items.take(i) =~= items);
    } else {
        lemma_sum_prices_take_step(items, i);
        lemma_sum_prices_prefix_le(items, i + 1);
    }
}

pub proof fn lemma_sum_prices_element(items: Seq<(String, Item)>, i: int)
    requires
        0 <= i < items.len(),
    ensures
        items[i].1.price <= sum_prices(items),
{
    lemma_sum_prices_take_step(items, i);
    lemma_sum_prices_prefix_le(items, i + 1);
    lemma_sum_prices_nonneg(items.take(i));
}

/// Sum a list of named amounts, or report that the sum does not fit a `u64`.
fn sum_amount_entries(entries: &Vec<(String, u64)>) -> (r: Option<u64>)
    ensures
        match r {
            Some(v) => v as int == sum_amounts(entries@),
            None => sum_amounts(entries@) > u64::MAX,
        },
{
    let mut acc: u64 = 0;
    let mut i: usize = 0;
    proof {
        assert(entries@.take(0) =~= Seq::<(String, u64)>::empty());
    }
    while i < entries.len()
        invariant
            i <= entries@.len(),
            acc as int == sum_amounts(entries@.take(i as int)),
        decreases entries@.len() - i,
    {
        let x = entries[i].1;
        proof {
            lemma_sum_amounts_take_step(entries@, i as int);
        }
        if x > u64::MAX - acc {
            proof {
                lemma_sum_amounts_prefix_le(entries@, i as int + 1);
            }
            return None;
        }
        acc = acc + x;
        i = i + 1;
    }
    proof {
        assert(entries@.take(entries@.len() as int) =~= entries@);
    }
    Some(acc)
}

/// Sum the prices of a list of named items, or report that the sum does not
/// fit a `u64`.
fn sum_price_entries(items: &Vec<(String, Item)>) -> (r: Option<u64>)
    ensures
        match r {
            Some(v) => v as int == sum_prices(items@),
            None => sum_prices(items@) > u64::MAX,
        },
{
    let mut acc: u64 = 0;
    let mut i: usize = 0;
    proof {
        assert(items@.take(0) =~= Seq::<(String, Item)>::empty());
    }
    while i < items.len()
        invariant
            i <= items@.len(),
            acc as int == sum_prices(items@.take(i as int)),
        decreases items@.len() - i,
    {
        let x = items[i].1.price;
        proof {
            lemma_sum_prices_take_step(items@, i as int);
        }
        if x > u64::MAX - acc {
            proof {
                lemma_sum_prices_prefix_le(items@, i as int + 1);
            }
            return None;
        }
        acc = acc + x;
        i = i + 1;
    }
    proof {
        assert(items@.take(items@.len() as int) =~= items@);
    }
    Some(acc)
}

impl Receipt {
    /// The adjusted cost of every item, in the items' own order: each price
    /// plus its proportional share of the total extras. Fails exactly when
    /// the extras are nonzero but the prices sum to zero.
    pub fn get_item_costs(&self) -> (r: Result<Vec<(String, u64)>, ReceiptError>)
        requires
            self.wf(),
        ensures
            match r {
                Ok(costs) => {
                    &&& !(sum_prices(self.items@) == 0 && sum_amounts(self.extras@) > 0)
                    &&& costs@.len() == self.items@.len()
                    &&& forall|i: int|
                        0 <= i < costs@.len() ==> (#[trigger] costs@[i]).0 == self.items@[i].0
                    &&& forall|i: int|
                        0 <= i < costs@.len() ==> (#[trigger] costs@[i]).1 as int == adjusted_cost(
                            self.items@[i].1.price as int,
                            sum_prices(self.items@),
                            sum_amounts(self.extras@),
                        )
                },
                Err(e) => {
                    &&& e == ReceiptError::ZeroItemPriceTotal
                    &&& sum_prices(self.items@) == 0
                    &&& sum_amounts(self.extras@) > 0
                },
            },
    {
        proof {
            lemma_sum_prices_nonneg(self.items@);
            lemma_sum_amounts_nonneg(self.extras@);
        }
        let total_extras = match sum_amount_entries(&self.extras) {
            Some(v) => v,
            None => {
                proof {
                    assert(false);
                }
                0
            },
        };
        let total_items = match sum_price_entries(&self.items) {
            Some(v) => v,
            None => {
                proof {
                    assert(false);
                }
                0
            },
        };
        if total_items == 0 && total_extras > 0 {
            return Err(ReceiptError::ZeroItemPriceTotal);
        }
        let ghost s = sum_prices(self.items@);
        let ghost e = sum_amounts(self.extras@);
        let mut costs: Vec<(String, u64)> = Vec::new();
        let mut idx: usize = 0;
        while idx < self.items.len()
            invariant
                self.wf(),
                idx <= self.items@.len(),
                total_items as int == s,
                total_extras as int == e,
                s == sum_prices(self.items@),
                e == sum_amounts(self.extras@),
                !(s == 0 && e > 0),
                costs@.len() == idx,
                forall|i: int| 0 <= i < idx ==> (#[trigger] costs@[i]).0 == self.items@[i].0,
                forall|i: int|
                    0 <= i < idx ==> (#[trigger] costs@[i]).1 as int == adjusted_cost(
                        self.items@[i].1.price as int,
                        s,
                        e,
                    ),
            decreases self.items@.len() - idx,
        {
            let entry = &self.items[idx];
            let price = entry.1.price;
            let cost: u64 = if total_items > 0 {
                proof {
                    lemma_sum_prices_element(self.items@, idx as int);
                    vstd::arithmetic::mul::lemma_mul_inequality(price as int, s, e);
                    vstd::arithmetic::div_mod::lemma_div_is_ordered(
                        price as int * e,
                        s * e,
                        s,
                    );
                    vstd::arithmetic::div_mod::lemma_div_multiples_vanish(e, s);
                    vstd::arithmetic::div_mod::lemma_div_pos_is_pos(price as int * e, s);
                    vstd::arithmetic::mul::lemma_mul_nonnegative(price as int, e);
                    vstd::arithmetic::mul::lemma_mul_upper_bound(
                        price as int,
                        u64::MAX as int,
                        e,
                        u64::MAX as int,
                    );
                }
                let extra = (((price as u128) * (total_extras as u128)) / (total_items as u128))
                    as u64;
                price + extra
            } else {
                price
            };
            let name = entry.0.clone();
            costs.push((name, cost));
            idx = idx + 1;
        }
        Ok(costs)
    }

}

/// The index at which a person already stands in the running share list.
fn find_person(shares: &Vec<(String, u64)>, name: &String) -> (r: Option<usize>)
    ensures
        match r {
            Some(k) => k < shares@.len() && shares@[k as int].0@ == name@,
            None => forall|k: int| 0 <= k < shares@.len() ==> (#[trigger] shares@[k]).0@ != name@,
        },
{
    let mut j: usize = 0;
    while j < shares.len()
        invariant
            j <= shares@.len(),
            forall|k: int| 0 <= k < j ==> (#[trigger] shares@[k]).0@ != name@,
        decreases shares@.len() - j,
    {
        if shares[j].0 == *name {
            return Some(j);
        }
        j = j + 1;
    }
    None
}

/// The position at which a new person keeps the share list sorted.
fn find_insert_pos(shares: &Vec<(String, u64)>, name: &String) -> (p: usize)
    requires
        keys_sorted(shares@),
        forall|k: int| 0 <= k < shares@.len() ==> (#[trigger] shares@[k]).0@ != name@,
    ensures
        p <= shares@.len(),
        forall|q: int| 0 <= q < p ==> lex_lt((#[trigger] shares@[q]).0@, name@),
        forall|q: int| p <= q < shares@.len() ==> lex_lt(name@, (#[trigger] shares@[q]).0@),
{
    let mut p: usize = 0;
    while p < shares.len()
        invariant
            p <= shares@.len(),
            keys_sorted(shares@),
            forall|k: int| 0 <= k < shares@.len() ==> (#[trigger] shares@[k]).0@ != name@,
            forall|q: int| 0 <= q < p ==> lex_lt((#[trigger] shares@[q]).0@, name@),
        decreases shares@.len() - p,
    {
        if !str_lt(shares[p].0.as_str(), name.as_str()) {
            proof {
                if !lex_lt(name@, shares@[p as int].0@) {
                    lemma_lex_lt_connected(shares@[p as int].0@, name@);
                }
                assert forall|q: int| p <= q < shares@.len() implies lex_lt(
                    name@,
                    (#[trigger] shares@[q]).0@,
                ) by {
                    if q > p {
                        crate::order::lemma_lex_lt_trans(name@, shares@[p as int].0@, shares@[q].0@);
                    }
                }
            }
            return p;
        }
        p = p + 1;
    }
    p
}

/// Floor division split across a sum of non-negative terms can only fall,
/// and by less than one whole unit.
proof fn lemma_div_add_bounds(a: int, b: int, d: int)
    requires
        a >= 0,
        b >= 0,
        d > 0,
    ensures
        a / d + b / d <= (a + b) / d,
        (a + b) / d <= a / d + b / d + 1,
{
    vstd::arithmetic::div_mod::lemma_fundamental_div_mod(a, d);
    vstd::arithmetic::div_mod::lemma_fundamental_div_mod(b, d);
    vstd::arithmetic::div_mod::lemma_mod_bound(a, d);
    vstd::arithmetic::div_mod::lemma_mod_bound(b, d);
    let q = a / d + b / d;
    let r = a % d + b % d;
    vstd::arithmetic::mul::lemma_mul_is_distributive_add(d, a / d, b / d);
    assert(a + b == d * q + r);
    vstd::arithmetic::div_mod::lemma_hoist_over_denominator(r, q, d as nat);
    assert(r / d + q == (r + q * d) / d);
    vstd::arithmetic::mul::lemma_mul_is_commutative(d, q);
    assert((a + b) / d == q + r / d);
    vstd::arithmetic::div_mod::lemma_div_pos_is_pos(r, d);
    vstd::arithmetic::div_mod::lemma_multiply_divide_lt(r, d, 2);
}

proof fn lemma_distributed_nonneg(people: Seq<(String, u64)>, cost: int, wsum: int)
    requires
        cost >= 0,
        wsum > 0,
    ensures
        distributed(people, cost, wsum) >= 0,
    decreases people.len(),
{
    if people.len() > 0 {
        lemma_distributed_nonneg(people.drop_last(), cost, wsum);
        vstd::arithmetic::mul::lemma_mul_nonnegative(people.last().1 as int, cost);
        vstd::arithmetic::div_mod::lemma_div_pos_is_pos(people.last().1 as int * cost, wsum);
    }
}

pub proof fn lemma_distributed_take_step(people: Seq<(String, u64)>, cost: int, wsum: int, j: int)
    requires
        0 <= j < people.len(),
    ensures
        distributed(people.take(j + 1), cost, wsum) == distributed(people.take(j), cost, wsum)
            + people[j].1 * cost / wsum,
{
    assert(people.take(j + 1).drop_last() =~= people.take(j));
}

proof fn lemma_distributed_le(people: Seq<(String, u64)>, cost: int, wsum: int)
    requires
        cost >= 0,
        wsum > 0,
        sum_amounts(people) <= wsum,
    ensures
        distributed(people, cost, wsum) <= sum_amounts(people) * cost / wsum,
    decreases people.len(),
{
    if people.len() == 0 {
        vstd::arithmetic::div_mod::lemma_div_pos_is_pos(0, wsum);
    } else {
        let pre = people.drop_last();
        let w = people.last().1 as int;
        lemma_sum_amounts_nonneg(pre);
        lemma_distributed_le(pre, cost, wsum);
        vstd::arithmetic::mul::lemma_mul_nonnegative(sum_amounts(pre), cost);
        vstd::arithmetic::mul::lemma_mul_nonnegative(w, cost);
        lemma_div_add_bounds(sum_amounts(pre) * cost, w * cost, wsum);
        vstd::arithmetic::mul::lemma_mul_is_distributive_add_other_way(cost, sum_amounts(pre), w);
    }
}

proof fn lemma_distributed_ge(people: Seq<(String, u64)>, cost: int, wsum: int)
    requires
        cost >= 0,
        wsum > 0,
        people.len() >= 1,
    ensures
        distributed(people, cost, wsum) >= sum_amounts(people) * cost / wsum - (people.len() - 1),
    decreases people.len(),
{
    let pre = people.drop_last();
    let w = people.last().1 as int;
    lemma_sum_amounts_nonneg(pre);
    vstd::arithmetic::mul::lemma_mul_nonnegative(sum_amounts(pre), cost);
    vstd::arithmetic::mul::lemma_mul_nonnegative(w, cost);
    lemma_div_add_bounds(sum_amounts(pre) * cost, w * cost, wsum);
    vstd::arithmetic::mul::lemma_mul_is_distributive_add_other_way(cost, sum_amounts(pre), w);
    if people.len() == 1 {
        assert(distributed(pre, cost, wsum) == 0);
        assert(sum_amounts(pre) == 0);
        vstd::arithmetic::mul::lemma_mul_basics(cost);
        vstd::arithmetic::div_mod::lemma_div_pos_is_pos(0, wsum);
        assert(0 * cost == 0) by (nonlinear_arith);
    } else {
        lemma_distributed_ge(pre, cost, wsum);
    }
}

/// Handing an item's whole cost out by floored proportional shares returns
/// at most the cost, and all of it except for less than one unit lost per
/// listed person.
pub proof fn lemma_distributed_bounds(people: Seq<(String, u64)>, cost: int, wsum: int)
    requires
        cost >= 0,
        wsum > 0,
        wsum == sum_amounts(people),
    ensures
        distributed(people, cost, wsum) <= cost,
        distributed(people, cost, wsum) >= cost - (people.len() - 1),
{
    lemma_distributed_le(people, cost, wsum);
    lemma_distributed_ge(people, cost, wsum);
    vstd::arithmetic::mul::lemma_mul_is_commutative(wsum, cost);
    vstd::arithmetic::div_mod::lemma_div_multiples_vanish(cost, wsum);
}

proof fn lemma_lookup_none(people: Seq<(String, u64)>, name: Seq<char>)
    requires
        forall|p: int| 0 <= p < people.len() ==> (#[trigger] people[p]).0@ != name,
    ensures
        lookup_weight(people, name) is None,
    decreases people.len(),
{
    if people.len() > 0 {
        assert forall|p: int| 0 <= p < people.drop_last().len() implies (#[trigger] people.drop_last()[p]).0@
            != name by {
            assert(people.drop_last()[p] == people[p]);
        }
        lemma_lookup_none(people.drop_last(), name);
    }
}

/// Under sorted (hence distinct) keys, the name at position `j` does not
/// occur earlier.
proof fn lemma_lookup_prefix_none(people: Seq<(String, u64)>, j: int)
    requires
        keys_sorted(people),
        0 <= j < people.len(),
    ensures
        lookup_weight(people.take(j), people[j].0@) is None,
{
    assert forall|p: int| 0 <= p < people.take(j).len() implies (#[trigger] people.take(j)[p]).0@
        != people[j].0@ by {
        assert(people.take(j)[p] == people[p]);
        assert(lex_lt(people[p].0@, people[j].0@));
        if people[p].0@ == people[j].0@ {
            crate::order::lemma_lex_lt_irrefl(people[j].0@);
        }
    }
    lemma_lookup_none(people.take(j), people[j].0@);
}

/// Under sorted keys, looking up the name at position `j` finds exactly the
/// weight at position `j`.
proof fn lemma_lookup_at(people: Seq<(String, u64)>, j: int)
    requires
        keys_sorted(people),
        0 <= j < people.len(),
    ensures
        lookup_weight(people, people[j].0@) == Some(people[j].1),
    decreases people.len(),
{
    if j == people.len() - 1 {
    } else {
        assert(lex_lt(people[j].0@, people.last().0@));
        if people.last().0@ == people[j].0@ {
            crate::order::lemma_lex_lt_irrefl(people[j].0@);
        }
        assert forall|a: int, b: int| 0 <= a < b < people.drop_last().len() implies lex_lt(
            (#[trigger] people.drop_last()[a]).0@,
            (#[trigger] people.drop_last()[b]).0@,
        ) by {
            assert(people.drop_last()[a] == people[a]);
            assert(people.drop_last()[b] == people[b]);
        }
        assert(people.drop_last()[j] == people[j]);
        lemma_lookup_at(people.drop_last(), j);
    }
}

proof fn lemma_share_of_nonneg(people: Seq<(String, u64)>, cost: int, wsum: int, name: Seq<char>)
    requires
        cost >= 0,
        wsum > 0,
    ensures
        share_of(people, cost, wsum, name) >= 0,
{
    match lookup_weight(people, name) {
        Some(w) => {
            vstd::arithmetic::mul::lemma_mul_nonnegative(w as int, cost);
            vstd::arithmetic::div_mod::lemma_div_pos_is_pos(w as int * cost, wsum);
        },
        None => {},
    }
}

/// One person's floored share never exceeds what the whole walk hands out.
proof fn lemma_share_of_le_distributed(
    people: Seq<(String, u64)>,
    cost: int,
    wsum: int,
    name: Seq<char>,
)
    requires
        cost >= 0,
        wsum > 0,
    ensures
        share_of(people, cost, wsum, name) <= distributed(people, cost, wsum),
    decreases people.len(),
{
    lemma_share_of_nonneg(people, cost, wsum, name);
    if people.len() > 0 {
        lemma_distributed_nonneg(people.drop_last(), cost, wsum);
        if people.last().0@ == name {
        } else {
            lemma_share_of_le_distributed(people.drop_last(), cost, wsum, name);
            vstd::arithmetic::mul::lemma_mul_nonnegative(people.last().1 as int, cost);
            vstd::arithmetic::div_mod::lemma_div_pos_is_pos(people.last().1 as int * cost, wsum);
        }
    }
}

/// An adjusted cost is never below the bare price, and never negative.
proof fn lemma_adjusted_cost_nonneg(price: int, s: int, e: int)
    requires
        price >= 0,
        e >= 0,
    ensures
        adjusted_cost(price, s, e) >= price,
{
    if s > 0 {
        vstd::arithmetic::mul::lemma_mul_nonnegative(price, e);
        vstd::arithmetic::div_mod::lemma_div_pos_is_pos(price * e, s);
    }
}

proof fn lemma_all_weight_sums_positive_prefix(items: Seq<(String, Item)>)
    requires
        all_weight_sums_positive(items),
        items.len() > 0,
    ensures
        all_weight_sums_positive(items.drop_last()),
{
    assert forall|i: int| 0 <= i < items.drop_last().len() implies sum_amounts(
        (#[trigger] items.drop_last()[i]).1.people@,
    ) > 0 by {
        assert(items.drop_last()[i] == items[i]);
    }
}

pub proof fn lemma_person_total_take_step(
    items: Seq<(String, Item)>,
    s: int,
    e: int,
    name: Seq<char>,
    n: int,
)
    requires
        0 <= n < items.len(),
    ensures
        person_total(items.take(n + 1), s, e, name) == person_total(items.take(n), s, e, name)
            + item_share(items[n].1, adjusted_cost(items[n].1.price as int, s, e), name),
{
    assert(items.take(n + 1).drop_last() =~= items.take(n));
}

pub proof fn lemma_total_distributed_take_step(items: Seq<(String, Item)>, s: int, e: int, n: int)
    requires
        0 <= n < items.len(),
    ensures
        total_distributed(items.take(n + 1), s, e) == total_distributed(items.take(n), s, e)
            + distributed(
            items[n].1.people@,
            adjusted_cost(items[n].1.price as int, s, e),
            sum_amounts(items[n].1.people@),
        ),
{
    assert(items.take(n + 1).drop_last() =~= items.take(n));
}

/// A person who appears nowhere owes nothing.
pub proof fn lemma_person_total_zero(items: Seq<(String, Item)>, s: int, e: int, name: Seq<char>)
    requires
        !person_appears(items, name),
    ensures
        person_total(items, s, e, name) == 0,
    decreases items.len(),
{
    if items.len() > 0 {
        assert(!person_appears(items.drop_last(), name)) by {
            if person_appears(items.drop_last(), name) {
                let i = choose|i: int|
                    0 <= i < items.drop_last().len() && person_in_people(
                        (#[trigger] items.drop_last()[i]).1.people@,
                        name,
                    );
                assert(items.drop_last()[i] == items[i]);
                assert(person_in_people(items[i].1.people@, name));
            }
        }
        lemma_person_total_zero(items.drop_last(), s, e, name);
        assert(!person_in_people(items.last().1.people@, name)) by {
            if person_in_people(items.last().1.people@, name) {
                assert(items[items.len() - 1] == items.last());
                assert(person_in_people(items[items.len() - 1].1.people@, name));
            }
        }
    }
}

proof fn lemma_person_total_le_distributed(
    items: Seq<(String, Item)>,
    s: int,
    e: int,
    name: Seq<char>,
)
    requires
        all_weight_sums_positive(items),
        e >= 0,
    ensures
        person_total(items, s, e, name) <= total_distributed(items, s, e),
    decreases items.len(),
{
    if items.len() > 0 {
        lemma_all_weight_sums_positive_prefix(items);
        lemma_person_total_le_distributed(items.drop_last(), s, e, name);
        assert(items[items.len() - 1] == items.last());
        lemma_adjusted_cost_nonneg(items.last().1.price as int, s, e);
        lemma_share_of_le_distributed(
            items.last().1.people@,
            adjusted_cost(items.last().1.price as int, s, e),
            sum_amounts(items.last().1.people@),
            name,
        );
    }
}

/// What all people together owe stays within the adjusted costs: at most
/// their sum, and all of it except for less than one unit per person entry.
pub proof fn lemma_total_distributed_bounds(items: Seq<(String, Item)>, s: int, e: int)
    requires
        all_weight_sums_positive(items),
        e >= 0,
    ensures
        total_distributed(items, s, e) <= sum_adjusted(items, s, e),
        total_distributed(items, s, e) >= sum_adjusted(items, s, e) - total_people(items),
    decreases items.len(),
{
    if items.len() > 0 {
        lemma_all_weight_sums_positive_prefix(items);
        lemma_total_distributed_bounds(items.drop_last(), s, e);
        assert(items[items.len() - 1] == items.last());
        let cost = adjusted_cost(items.last().1.price as int, s, e);
        lemma_adjusted_cost_nonneg(items.last().1.price as int, s, e);
        lemma_distributed_bounds(items.last().1.people@, cost, sum_amounts(items.last().1.people@));
    }
}

/// With no priced items to apportion by (and hence no extras), each adjusted
/// cost is the bare price.
proof fn lemma_sum_adjusted_flat(items: Seq<(String, Item)>, s: int, e: int)
    requires
        s <= 0,
    ensures
        sum_adjusted(items, s, e) == sum_prices(items),
    decreases items.len(),
{
    if items.len() > 0 {
        lemma_sum_adjusted_flat(items.drop_last(), s, e);
    }
}

proof fn lemma_sum_adjusted_partial(items: Seq<(String, Item)>, s: int, e: int)
    requires
        s > 0,
        e >= 0,
    ensures
        sum_adjusted(items, s, e) <= sum_prices(items) + sum_prices(items) * e / s,
        items.len() > 0 ==> sum_adjusted(items, s, e) >= sum_prices(items) + sum_prices(items) * e
            / s - (items.len() - 1),
    decreases items.len(),
{
    if items.len() == 0 {
        vstd::arithmetic::div_mod::lemma_div_pos_is_pos(0, s);
        assert(0 * e == 0) by (nonlinear_arith);
    } else {
        let pre = items.drop_last();
        let p = items.last().1.price as int;
        lemma_sum_adjusted_partial(pre, s, e);
        lemma_sum_prices_nonneg(pre);
        vstd::arithmetic::mul::lemma_mul_nonnegative(sum_prices(pre), e);
        vstd::arithmetic::mul::lemma_mul_nonnegative(p, e);
        lemma_div_add_bounds(sum_prices(pre) * e, p * e, s);
        vstd::arithmetic::mul::lemma_mul_is_distributive_add_other_way(e, sum_prices(pre), p);
        if pre.len() == 0 {
            assert(sum_adjusted(pre, s, e) == 0);
            assert(sum_prices(pre) == 0);
            vstd::arithmetic::div_mod::lemma_div_pos_is_pos(0, s);
            assert(0 * e == 0) by (nonlinear_arith);
        }
    }
}

/// Extras distribution: every adjusted cost is the price plus the price's
/// proportional share of the extras, and the adjusted costs together return
/// the whole of prices and extras except for less than one unit lost per
/// item to rounding down.
pub proof fn lemma_sum_adjusted_bounds(items: Seq<(String, Item)>, s: int, e: int)
    requires
        s == sum_prices(items),
        e >= 0,
        !(s == 0 && e > 0),
    ensures
        sum_adjusted(items, s, e) <= s + e,
        sum_adjusted(items, s, e) >= s + e - items.len(),
{
    lemma_sum_prices_nonneg(items);
    if s > 0 {
        lemma_sum_adjusted_partial(items, s, e);
        vstd::arithmetic::mul::lemma_mul_is_commutative(s, e);
        vstd::arithmetic::div_mod::lemma_div_multiples_vanish(e, s);
    } else {
        lemma_sum_adjusted_flat(items, s, e);
    }
}

proof fn lemma_sum_amounts_update(entries: Seq<(String, u64)>, k: int, pair: (String, u64))
    requires
        0 <= k < entries.len(),
    ensures
        sum_amounts(entries.update(k, pair)) == sum_amounts(entries) - entries[k].1 + pair.1,
    decreases entries.len(),
{
    if k == entries.len() - 1 {
        assert(entries.update(k, pair).drop_last() =~= entries.drop_last());
        assert(entries.update(k, pair).last() == pair);
    } else {
        assert(entries.update(k, pair).drop_last() =~= entries.drop_last().update(k, pair));
        assert(entries.update(k, pair).last() == entries.last());
        lemma_sum_amounts_update(entries.drop_last(), k, pair);
    }
}

proof fn lemma_sum_amounts_insert(entries: Seq<(String, u64)>, p: int, pair: (String, u64))
    requires
        0 <= p <= entries.len(),
    ensures
        sum_amounts(entries.insert(p, pair)) == sum_amounts(entries) + pair.1,
    decreases entries.len(),
{
    entries.insert_ensures(p, pair);
    if p == entries.len() {
        assert(entries.insert(p, pair).drop_last() =~= entries);
        assert(entries.insert(p, pair).last() == pair);
    } else {
        assert(entries.insert(p, pair).drop_last() =~= entries.drop_last().insert(p, pair)) by {
            entries.drop_last().insert_ensures(p, pair);
        }
        assert(entries.insert(p, pair).last() == entries.last());
        lemma_sum_amounts_insert(entries.drop_last(), p, pair);
    }
}

/// Part of the items account for at most the whole of prices and extras.
proof fn lemma_sum_adjusted_prefix_bound(items: Seq<(String, Item)>, s: int, e: int, n: int)
    requires
        s == sum_prices(items),
        e >= 0,
        !(s == 0 && e > 0),
        0 <= n <= items.len(),
    ensures
        sum_adjusted(items.take(n), s, e) <= s + e,
{
    lemma_sum_prices_nonneg(items.take(n));
    lemma_sum_prices_prefix_le(items, n);
    if s > 0 {
        lemma_sum_adjusted_partial(items.take(n), s, e);
        let sp = sum_prices(items.take(n));
        vstd::arithmetic::mul::lemma_mul_inequality(sp, s, e);
        vstd::arithmetic::div_mod::lemma_div_is_ordered(sp * e, s * e, s);
        vstd::arithmetic::mul::lemma_mul_is_commutative(s, e);
        vstd::arithmetic::div_mod::lemma_div_multiples_vanish(e, s);
    } else {
        lemma_sum_adjusted_flat(items.take(n), s, e);
    }
}

/// No one ever owes more than the whole of prices and extras.
proof fn lemma_person_total_bounded(
    items: Seq<(String, Item)>,
    s: int,
    e: int,
    name: Seq<char>,
    n: int,
)
    requires
        0 <= n <= items.len(),
        s == sum_prices(items),
        e >= 0,
        !(s == 0 && e > 0),
        all_weight_sums_positive(items.take(n)),
    ensures
        person_total(items.take(n), s, e, name) <= s + e,
{
    lemma_person_total_le_distributed(items.take(n), s, e, name);
    lemma_total_distributed_bounds(items.take(n), s, e);
    lemma_sum_adjusted_prefix_bound(items, s, e, n);
}

proof fn lemma_person_appears_take_step(items: Seq<(String, Item)>, n: int, name: Seq<char>)
    requires
        0 <= n < items.len(),
    ensures
        person_appears(items.take(n + 1), name) == (person_appears(items.take(n), name)
            || person_in_people(items[n].1.people@, name)),
{
    if person_appears(items.take(n + 1), name) {
        let i = choose|i: int|
            0 <= i < items.take(n + 1).len() && person_in_people(
                (#[trigger] items.take(n + 1)[i]).1.people@,
                name,
            );
        assert(items.take(n + 1)[i] == items[i]);
        if i < n {
            assert(items.take(n)[i] == items[i]);
            assert(person_in_people((items.take(n)[i]).1.people@, name));
            assert(person_appears(items.take(n), name));
        }
    }
    if person_appears(items.take(n), name) {
        let i = choose|i: int|
            0 <= i < items.take(n).len() && person_in_people(
                (#[trigger] items.take(n)[i]).1.people@,
                name,
            );
        assert(items.take(n + 1)[i] == items[i]);
        assert(person_in_people((items.take(n + 1)[i]).1.people@, name));
        assert(person_appears(items.take(n + 1), name));
    }
    if person_in_people(items[n].1.people@, name) {
        assert(items.take(n + 1)[n] == items[n]);
        assert(person_in_people((items.take(n + 1)[n]).1.people@, name));
        assert(person_appears(items.take(n + 1), name));
    }
}

/// Sums of a cost list agree with the sum of the adjusted costs it mirrors.
proof fn lemma_costs_sum(
    costs: Seq<(String, u64)>,
    items: Seq<(String, Item)>,
    s: int,
    e: int,
)
    requires
        costs.len() == items.len(),
        forall|i: int|
            0 <= i < costs.len() ==> (#[trigger] costs[i]).1 as int == adjusted_cost(
                items[i].1.price as int,
                s,
                e,
            ),
    ensures
        sum_amounts(costs) == sum_adjusted(items, s, e),
    decreases costs.len(),
{
    if costs.len() > 0 {
        assert forall|i: int| 0 <= i < costs.drop_last().len() implies (#[trigger] costs.drop_last()[i]).1
            as int == adjusted_cost(items.drop_last()[i].1.price as int, s, e) by {
            assert(costs.drop_last()[i] == costs[i]);
            assert(items.drop_last()[i] == items[i]);
        }
        lemma_costs_sum(costs.drop_last(), items.drop_last(), s, e);
        assert(costs[costs.len() - 1] == costs.last());
        assert(items[items.len() - 1] == items.last());
    }
}

/// The amount booked so far against `name` in a share list: its entry's
/// value, or zero when it has no entry yet.
pub open spec fn shares_value(entries: Seq<(String, u64)>, name: Seq<char>) -> int {
    match lookup_weight(entries, name) {
        Some(v) => v as int,
        None => 0,
    }
}

proof fn lemma_lookup_update(s: Seq<(String, u64)>, k: int, pair: (String, u64))
    requires
        0 <= k < s.len(),
        pair.0@ == s[k].0@,
        keys_sorted(s),
    ensures
        lookup_weight(s.update(k, pair), pair.0@) == Some(pair.1),
        forall|n: Seq<char>|
            n != pair.0@ ==> lookup_weight(s.update(k, pair), n) == lookup_weight(s, n),
    decreases s.len(),
{
    let t = s.update(k, pair);
    if k == s.len() - 1 {
        assert(t.drop_last() =~= s.drop_last());
        assert(t.last() == pair);
    } else {
        assert(t.drop_last() =~= s.drop_last().update(k, pair));
        assert(t.last() == s.last());
        assert forall|a: int, b: int| 0 <= a < b < s.drop_last().len() implies lex_lt(
            (#[trigger] s.drop_last()[a]).0@,
            (#[trigger] s.drop_last()[b]).0@,
        ) by {
            assert(s.drop_last()[a] == s[a]);
            assert(s.drop_last()[b] == s[b]);
        }
        assert(s.drop_last()[k] == s[k]);
        lemma_lookup_update(s.drop_last(), k, pair);
        assert(lex_lt(s[k].0@, s[s.len() - 1].0@));
        if s.last().0@ == pair.0@ {
            crate::order::lemma_lex_lt_irrefl(pair.0@);
        }
        assert forall|n: Seq<char>| n != pair.0@ implies lookup_weight(t, n) == lookup_weight(
            s,
            n,
        ) by {
            if s.last().0@ == n {
            } else {
                assert(lookup_weight(t, n) == lookup_weight(t.drop_last(), n));
                assert(lookup_weight(s, n) == lookup_weight(s.drop_last(), n));
                assert(lookup_weight(t.drop_last(), n) == lookup_weight(
                    s.drop_last().update(k, pair),
                    n,
                ));
            }
        }
    }
}

proof fn lemma_lookup_insert(s: Seq<(String, u64)>, p: int, pair: (String, u64))
    requires
        0 <= p <= s.len(),
        forall|k: int| 0 <= k < s.len() ==> (#[trigger] s[k]).0@ != pair.0@,
    ensures
        lookup_weight(s.insert(p, pair), pair.0@) == Some(pair.1),
        forall|n: Seq<char>|
            n != pair.0@ ==> lookup_weight(s.insert(p, pair), n) == lookup_weight(s, n),
    decreases s.len(),
{
    let t = s.insert(p, pair);
    s.insert_ensures(p, pair);
    if p == s.len() {
        assert(t.drop_last() =~= s);
        assert(t.last() == pair);
        assert forall|n: Seq<char>| n != pair.0@ implies lookup_weight(t, n) == lookup_weight(
            s,
            n,
        ) by {
            assert(lookup_weight(t, n) == lookup_weight(s, n));
        }
    } else {
        assert(t.drop_last() =~= s.drop_last().insert(p, pair)) by {
            s.drop_last().insert_ensures(p, pair);
        }
        assert(t.last() == s.last());
        assert(s[s.len() - 1] == s.last());
        assert forall|k2: int| 0 <= k2 < s.drop_last().len() implies (#[trigger] s.drop_last()[k2]).0@
            != pair.0@ by {
            assert(s.drop_last()[k2] == s[k2]);
        }
        lemma_lookup_insert(s.drop_last(), p, pair);
        assert(s.last().0@ != pair.0@);
        assert(lookup_weight(t, pair.0@) == lookup_weight(t.drop_last(), pair.0@));
        assert(lookup_weight(t.drop_last(), pair.0@) == lookup_weight(
            s.drop_last().insert(p, pair),
            pair.0@,
        ));
        assert forall|n: Seq<char>| n != pair.0@ implies lookup_weight(t, n) == lookup_weight(
            s,
            n,
        ) by {
            if s.last().0@ == n {
            } else {
                assert(lookup_weight(t, n) == lookup_weight(t.drop_last(), n));
                assert(lookup_weight(s, n) == lookup_weight(s.drop_last(), n));
                assert(lookup_weight(t.drop_last(), n) == lookup_weight(
                    s.drop_last().insert(p, pair),
                    n,
                ));
            }
        }
    }
}

/// Book `amount` more against `name` in the sorted share list, adding an
/// entry when the person has none yet.
fn bump_share(shares: &mut Vec<(String, u64)>, name: &String, amount: u64)
    requires
        keys_sorted(old(shares)@),
        shares_value(old(shares)@, name@) + amount <= u64::MAX,
    ensures
        keys_sorted(final(shares)@),
        shares_value(final(shares)@, name@) == shares_value(old(shares)@, name@) + amount,
        person_in_people(final(shares)@, name@),
        forall|n: Seq<char>|
            n != name@ ==> lookup_weight(final(shares)@, n) == lookup_weight(old(shares)@, n),
        sum_amounts(final(shares)@) == sum_amounts(old(shares)@) + amount,
{
    match find_person(shares, name) {
        Some(k) => {
            let ghost old_shares = shares@;
            proof {
                lemma_lookup_at(old_shares, k as int);
            }
            let cur = shares[k].1;
            let name_cl = shares[k].0.clone();
            let pair = (name_cl, cur + amount);
            shares[k] = pair;
            proof {
                lemma_lookup_update(old_shares, k as int, pair);
                lemma_sum_amounts_update(old_shares, k as int, pair);
                assert forall|a: int, b: int| 0 <= a < b < shares@.len() implies lex_lt(
                    (#[trigger] shares@[a]).0@,
                    (#[trigger] shares@[b]).0@,
                ) by {
                    assert(shares@[a].0@ == old_shares[a].0@);
                    assert(shares@[b].0@ == old_shares[b].0@);
                }
            }
        },
        None => {
            let ghost old_shares = shares@;
            let p = find_insert_pos(shares, name);
            let pair = (name.clone(), amount);
            shares.insert(p, pair);
            proof {
                old_shares.insert_ensures(p as int, pair);
                lemma_lookup_insert(old_shares, p as int, pair);
                lemma_sum_amounts_insert(old_shares, p as int, pair);
                lemma_lookup_none(old_shares, name@);
                assert forall|a: int, b: int| 0 <= a < b < shares@.len() implies lex_lt(
                    (#[trigger] shares@[a]).0@,
                    (#[trigger] shares@[b]).0@,
                ) by {
                    if a < p && b < p {
                        assert(shares@[a] == old_shares[a]);
                        assert(shares@[b] == old_shares[b]);
                    } else if a < p && b == p {
                        assert(shares@[a] == old_shares[a]);
                    } else if a < p && b > p {
                        assert(shares@[a] == old_shares[a]);
                        assert(shares@[b] == old_shares[b - 1]);
                    } else if a == p {
                        assert(shares@[b] == old_shares[b - 1]);
                    } else {
                        assert(shares@[a] == old_shares[a - 1]);
                        assert(shares@[b] == old_shares[b - 1]);
                    }
                }
            }
        },
    }
}

impl Receipt {
    /// Each person's total owed, keyed and sorted by person name: for every
    /// item, each listed person owes their weight's fraction of the item's
    /// adjusted cost, and a person's shares accumulate across items. Every
    /// person listed under any item gets an entry, even one who owes
    /// nothing. Fails exactly as `get_item_costs` does, or else when some
    /// item's person weights sum to zero.
    pub fn get_person_shares(&self) -> (r: Result<Vec<(String, u64)>, ReceiptError>)
        requires
            self.wf(),
        ensures
            match r {
                Ok(shares) => {
                    &&& !(sum_prices(self.items@) == 0 && sum_amounts(self.extras@) > 0)
                    &&& all_weight_sums_positive(self.items@)
                    &&& keys_sorted(shares@)
                    &&& forall|name: Seq<char>|
                        #[trigger] shares_value(shares@, name) == person_total(
                            self.items@,
                            sum_prices(self.items@),
                            sum_amounts(self.extras@),
                            name,
                        )
                    &&& forall|name: Seq<char>|
                        #[trigger] person_in_people(shares@, name) == person_appears(
                            self.items@,
                            name,
                        )
                    &&& forall|k: int|
                        0 <= k < shares@.len() ==> (#[trigger] shares@[k]).1 as int == person_total(
                            self.items@,
                            sum_prices(self.items@),
                            sum_amounts(self.extras@),
                            shares@[k].0@,
                        )
                    &&& sum_amounts(shares@) == total_distributed(
                        self.items@,
                        sum_prices(self.items@),
                        sum_amounts(self.extras@),
                    )
                },
                Err(err) => match err {
                    ReceiptError::ZeroItemPriceTotal => sum_prices(self.items@) == 0
                        && sum_amounts(self.extras@) > 0,
                    ReceiptError::ZeroWeightSum => !(sum_prices(self.items@) == 0 && sum_amounts(
                        self.extras@,
                    ) > 0) && !all_weight_sums_positive(self.items@),
                    ReceiptError::TotalMismatch => false,
                },
            },
    {
        let ghost s = sum_prices(self.items@);
        let ghost e = sum_amounts(self.extras@);
        proof {
            lemma_sum_amounts_nonneg(self.extras@);
        }
        let costs = match self.get_item_costs() {
            Ok(c) => c,
            Err(err) => {
                return Err(err);
            },
        };
        let mut shares: Vec<(String, u64)> = Vec::new();
        let mut idx: usize = 0;
        proof {
            assert(self.items@.take(0) =~= Seq::<(String, Item)>::empty());
        }
        while idx < self.items.len()
            invariant
                self.wf(),
                idx <= self.items@.len(),
                s == sum_prices(self.items@),
                e == sum_amounts(self.extras@),
                e >= 0,
                !(s == 0 && e > 0),
                costs@.len() == self.items@.len(),
                forall|i: int|
                    0 <= i < costs@.len() ==> (#[trigger] costs@[i]).1 as int == adjusted_cost(
                        self.items@[i].1.price as int,
                        s,
                        e,
                    ),
                forall|i: int|
                    0 <= i < idx ==> sum_amounts((#[trigger] self.items@[i]).1.people@) > 0,
                keys_sorted(shares@),
                forall|name: Seq<char>|
                    #[trigger] shares_value(shares@, name) == person_total(
                        self.items@.take(idx as int),
                        s,
                        e,
                        name,
                    ),
                forall|name: Seq<char>|
                    #[trigger] person_in_people(shares@, name) == person_appears(
                        self.items@.take(idx as int),
                        name,
                    ),
                sum_amounts(shares@) == total_distributed(self.items@.take(idx as int), s, e),
            decreases self.items@.len() - idx,
        {
            let item = &self.items[idx].1;
            proof {
                assert(self.items@[idx as int].1.wf());
            }
            let wsum = match sum_amount_entries(&item.people) {
                Some(v) => v,
                None => {
                    proof {
                        assert(false);
                    }
                    0
                },
            };
            if wsum == 0 {
                proof {
                    assert(sum_amounts(self.items@[idx as int].1.people@) == 0);
                    assert(!all_weight_sums_positive(self.items@));
                }
                return Err(ReceiptError::ZeroWeightSum);
            }
            let cost = costs[idx].1;
            let ghost icost = adjusted_cost(self.items@[idx as int].1.price as int, s, e);
            proof {
                assert(cost as int == icost);
                lemma_adjusted_cost_nonneg(self.items@[idx as int].1.price as int, s, e);
                assert(item.people@.take(0) =~= Seq::<(String, u64)>::empty());
            }
            let mut j: usize = 0;
            while j < item.people.len()
                invariant
                    self.wf(),
                    idx < self.items@.len(),
                    j <= item.people@.len(),
                    s == sum_prices(self.items@),
                    e == sum_amounts(self.extras@),
                    e >= 0,
                    !(s == 0 && e > 0),
                    item.people@ == self.items@[idx as int].1.people@,
                    keys_sorted(item.people@),
                    wsum as int == sum_amounts(item.people@),
                    wsum > 0,
                    icost == adjusted_cost(self.items@[idx as int].1.price as int, s, e),
                    cost as int == icost,
                    icost >= 0,
                    forall|i: int|
                        0 <= i < idx ==> sum_amounts((#[trigger] self.items@[i]).1.people@) > 0,
                    keys_sorted(shares@),
                    forall|name: Seq<char>|
                        #[trigger] shares_value(shares@, name) == person_total(
                            self.items@.take(idx as int),
                            s,
                            e,
                            name,
                        ) + share_of(item.people@.take(j as int), icost, wsum as int, name),
                    forall|name: Seq<char>|
                        #[trigger] person_in_people(shares@, name) == (person_appears(
                            self.items@.take(idx as int),
                            name,
                        ) || person_in_people(item.people@.take(j as int), name)),
                    sum_amounts(shares@) == total_distributed(self.items@.take(idx as int), s, e)
                        + distributed(item.people@.take(j as int), icost, wsum as int),
                decreases item.people@.len() - j,
            {
                let person = &item.people[j];
                let w = person.1;
                let ghost nm = person.0@;
                proof {
                    assert(item.people@[j as int] == *person);
                    lemma_sum_amounts_element(item.people@, j as int);
                    vstd::arithmetic::mul::lemma_mul_nonnegative(w as int, icost);
                    vstd::arithmetic::mul::lemma_mul_inequality(w as int, wsum as int, icost);
                    vstd::arithmetic::div_mod::lemma_div_is_ordered(
                        w as int * icost,
                        wsum as int * icost,
                        wsum as int,
                    );
                    vstd::arithmetic::mul::lemma_mul_is_commutative(wsum as int, icost);
                    vstd::arithmetic::div_mod::lemma_div_multiples_vanish(icost, wsum as int);
                    vstd::arithmetic::div_mod::lemma_div_pos_is_pos(w as int * icost, wsum as int);
                    vstd::arithmetic::mul::lemma_mul_upper_bound(
                        w as int,
                        u64::MAX as int,
                        icost,
                        u64::MAX as int,
                    );
                }
                let share = (((w as u128) * (cost as u128)) / (wsum as u128)) as u64;
                let ghost delta = w as int * icost / (wsum as int);
                proof {
                    assert(share as int == delta);
                    assert(0 <= delta <= icost);
                    lemma_lookup_prefix_none(item.people@, j as int);
                    assert(item.people@.take(j as int + 1).drop_last() =~= item.people@.take(
                        j as int,
                    ));
                    assert(item.people@.take(j as int + 1).last() == item.people@[j as int]);
                    lemma_distributed_take_step(item.people@, icost, wsum as int, j as int);
                    // the person's booked value before this entry is their
                    // total so far; with this entry it becomes their total
                    // after this item, which stays within the receipt's whole
                    assert(share_of(item.people@.take(j as int), icost, wsum as int, nm) == 0);
                    assert(shares_value(shares@, nm) == person_total(
                        self.items@.take(idx as int),
                        s,
                        e,
                        nm,
                    ));
                    lemma_person_total_take_step(self.items@, s, e, nm, idx as int);
                    lemma_lookup_at(item.people@, j as int);
                    assert(item_share(self.items@[idx as int].1, icost, nm) == delta);
                    assert forall|i: int|
                        0 <= i < self.items@.take(idx as int + 1).len() implies sum_amounts(
                        (#[trigger] self.items@.take(idx as int + 1)[i]).1.people@,
                    ) > 0 by {
                        assert(self.items@.take(idx as int + 1)[i] == self.items@[i]);
                    }
                    lemma_person_total_bounded(self.items@, s, e, nm, idx as int + 1);
                    assert(shares_value(shares@, nm) + delta <= s + e <= u64::MAX);
                }
                let ghost old_shares = shares@;
                bump_share(&mut shares, &person.0, share);
                proof {
                    assert(lookup_weight(item.people@.take(j as int + 1), nm) == Some(w));
                    assert forall|name: Seq<char>|
                        #[trigger] shares_value(shares@, name) == person_total(
                            self.items@.take(idx as int),
                            s,
                            e,
                            name,
                        ) + share_of(
                            item.people@.take(j as int + 1),
                            icost,
                            wsum as int,
                            name,
                        ) by {
                        if name != nm {
                            assert(shares_value(old_shares, name) == person_total(
                                self.items@.take(idx as int),
                                s,
                                e,
                                name,
                            ) + share_of(item.people@.take(j as int), icost, wsum as int, name));
                            assert(lookup_weight(shares@, name) == lookup_weight(
                                old_shares,
                                name,
                            ));
                            assert(shares_value(shares@, name) == shares_value(old_shares, name));
                            assert(lookup_weight(item.people@.take(j as int + 1), name)
                                == lookup_weight(item.people@.take(j as int), name));
                            assert(share_of(item.people@.take(j as int + 1), icost, wsum as int, name)
                                == share_of(item.people@.take(j as int), icost, wsum as int, name));
                        } else {
                            assert(shares_value(shares@, nm) == shares_value(old_shares, nm)
                                + delta);
                            assert(share_of(item.people@.take(j as int + 1), icost, wsum as int, nm)
                                == delta);
                        }
                    }
                    assert forall|name: Seq<char>|
                        #[trigger] person_in_people(shares@, name) == (person_appears(
                            self.items@.take(idx as int),
                            name,
                        ) || person_in_people(
                            item.people@.take(j as int + 1),
                            name,
                        )) by {
                        if name != nm {
                            assert(person_in_people(old_shares, name) == (person_appears(
                                self.items@.take(idx as int),
                                name,
                            ) || person_in_people(item.people@.take(j as int), name)));
                            assert(lookup_weight(shares@, name) == lookup_weight(
                                old_shares,
                                name,
                            ));
                            assert(person_in_people(shares@, name) == person_in_people(
                                old_shares,
                                name,
                            ));
                            assert(lookup_weight(item.people@.take(j as int + 1), name)
                                == lookup_weight(item.people@.take(j as int), name));
                            assert(person_in_people(item.people@.take(j as int + 1), name)
                                == person_in_people(item.people@.take(j as int), name));
                        } else {
                            assert(person_in_people(shares@, nm));
                            assert(person_in_people(item.people@.take(j as int + 1), nm));
                        }
                    }
                }
                j = j + 1;
            }
            proof {
                assert(item.people@.take(j as int) =~= item.people@);
                assert forall|name: Seq<char>|
                    #[trigger] shares_value(shares@, name) == person_total(
                        self.items@.take(idx as int + 1),
                        s,
                        e,
                        name,
                    ) by {
                    lemma_person_total_take_step(self.items@, s, e, name, idx as int);
                }
                assert forall|name: Seq<char>|
                    #[trigger] person_in_people(shares@, name) == person_appears(
                        self.items@.take(idx as int + 1),
                        name,
                    ) by {
                    lemma_person_appears_take_step(self.items@, idx as int, name);
                }
                lemma_total_distributed_take_step(self.items@, s, e, idx as int);
            }
            idx = idx + 1;
        }
        proof {
            assert(self.items@.take(idx as int) =~= self.items@);
            assert forall|k: int| 0 <= k < shares@.len() implies (#[trigger] shares@[k]).1
                as int == person_total(self.items@, s, e, shares@[k].0@) by {
                lemma_lookup_at(shares@, k);
                assert(shares_value(shares@, shares@[k].0@) == person_total(
                    self.items@,
                    s,
                    e,
                    shares@[k].0@,
                ));
            }
        }
        Ok(shares)
    }
}

/// A receipt's computed output: each item's adjusted cost and each person's
/// total owed, every amount rendered with exactly two decimal places.
#[derive(Debug)]
pub struct Output {
    pub item_costs: Vec<(String, String)>,
    pub person_shares: Vec<(String, String)>,
}

proof fn lemma_lookup_some_index(entries: Seq<(String, u64)>, name: Seq<char>)
    requires
        lookup_weight(entries, name) is Some,
    ensures
        exists|k: int| 0 <= k < entries.len() && (#[trigger] entries[k]).0@ == name,
    decreases entries.len(),
{
    if entries.last().0@ == name {
        assert(entries[entries.len() - 1] == entries.last());
    } else {
        lemma_lookup_some_index(entries.drop_last(), name);
        let k = choose|k: int|
            0 <= k < entries.drop_last().len() && (#[trigger] entries.drop_last()[k]).0@ == name;
        assert(entries[k] == entries.drop_last()[k]);
    }
}

proof fn lemma_total_people_nonneg(items: Seq<(String, Item)>)
    ensures
        total_people(items) >= 0,
    decreases items.len(),
{
    if items.len() > 0 {
        lemma_total_people_nonneg(items.drop_last());
    }
}

/// Proportionality: within one item whose weights sum to `wsum`, each listed
/// person owes exactly their weight's fraction of the item's cost, rounded
/// down to a whole unit, and together the listed people reproduce the cost
/// except for less than one unit lost per person to rounding.
pub proof fn lemma_item_proportionality(item: Item, cost: int)
    requires
        item.wf(),
        sum_amounts(item.people@) > 0,
        cost >= 0,
    ensures
        forall|j: int|
            0 <= j < item.people@.len() ==> item_share(
                item,
                cost,
                (#[trigger] item.people@[j]).0@,
            ) == item.people@[j].1 * cost / sum_amounts(item.people@),
        distributed(item.people@, cost, sum_amounts(item.people@)) <= cost,
        distributed(item.people@, cost, sum_amounts(item.people@)) >= cost - (item.people@.len()
            - 1),
{
    assert forall|j: int| 0 <= j < item.people@.len() implies item_share(
        item,
        cost,
        (#[trigger] item.people@[j]).0@,
    ) == item.people@[j].1 * cost / sum_amounts(item.people@) by {
        lemma_lookup_at(item.people@, j);
    }
    lemma_distributed_bounds(item.people@, cost, sum_amounts(item.people@));
}

/// Round trip: when the declared total equals the sum of prices and extras
/// exactly, every item has positive weights, and the receipt is modest in
/// size (at most a hundred items and person entries together), both the sum
/// of the adjusted costs and the sum of all person shares agree with the
/// total within the 0.01 tolerance.
pub proof fn lemma_round_trip_total(receipt: Receipt)
    requires
        receipt.wf(),
        all_weight_sums_positive(receipt.items@),
        !(sum_prices(receipt.items@) == 0 && sum_amounts(receipt.extras@) > 0),
        receipt.total as int == sum_prices(receipt.items@) + sum_amounts(receipt.extras@),
        receipt.items@.len() + total_people(receipt.items@) <= 100,
    ensures
        within_tolerance(
            sum_adjusted(receipt.items@, sum_prices(receipt.items@), sum_amounts(receipt.extras@)),
            receipt.total as int,
        ),
        within_tolerance(
            total_distributed(
                receipt.items@,
                sum_prices(receipt.items@),
                sum_amounts(receipt.extras@),
            ),
            receipt.total as int,
        ),
{
    let s = sum_prices(receipt.items@);
    let e = sum_amounts(receipt.extras@);
    lemma_sum_amounts_nonneg(receipt.extras@);
    lemma_sum_adjusted_bounds(receipt.items@, s, e);
    lemma_total_distributed_bounds(receipt.items@, s, e);
    lemma_total_people_nonneg(receipt.items@);
}

impl Receipt {
    /// Whether the receipt is well formed: every key list sorted and
    /// duplicate-free, and every sum within machine range.
    pub fn validate(&self) -> (b: bool)
        ensures
            b == self.wf(),
    {
        let mut i: usize = 1;
        while i < self.items.len()
            invariant
                1 <= i,
                forall|k: int|
                    0 <= k && k + 1 < i && k + 1 < self.items@.len() ==> lex_lt(
                        (#[trigger] self.items@[k]).0@,
                        self.items@[k + 1].0@,
                    ),
            decreases self.items@.len() - i,
        {
            if !str_lt(self.items[i - 1].0.as_str(), self.items[i].0.as_str()) {
                proof {
                    assert(!keys_sorted(self.items@)) by {
                        if keys_sorted(self.items@) {
                            assert(lex_lt(
                                (#[trigger] self.items@[i as int - 1]).0@,
                                (#[trigger] self.items@[i as int]).0@,
                            ));
                        }
                    }
                }
                return false;
            }
            i = i + 1;
        }
        proof {
            lemma_sorted_from_adjacent(self.items@);
        }
        let mut i: usize = 1;
        while i < self.extras.len()
            invariant
                1 <= i,
                forall|k: int|
                    0 <= k && k + 1 < i && k + 1 < self.extras@.len() ==> lex_lt(
                        (#[trigger] self.extras@[k]).0@,
                        self.extras@[k + 1].0@,
                    ),
            decreases self.extras@.len() - i,
        {
            if !str_lt(self.extras[i - 1].0.as_str(), self.extras[i].0.as_str()) {
                proof {
                    assert(!keys_sorted(self.extras@)) by {
                        if keys_sorted(self.extras@) {
                            assert(lex_lt(
                                (#[trigger] self.extras@[i as int - 1]).0@,
                                (#[trigger] self.extras@[i as int]).0@,
                            ));
                        }
                    }
                }
                return false;
            }
            i = i + 1;
        }
        proof {
            lemma_sorted_from_adjacent(self.extras@);
        }
        let mut i: usize = 0;
        while i < self.items.len()
            invariant
                i <= self.items@.len(),
                keys_sorted(self.items@),
                keys_sorted(self.extras@),
                forall|k: int| 0 <= k < i ==> (#[trigger] self.items@[k]).1.wf(),
            decreases self.items@.len() - i,
        {
            let item = &self.items[i].1;
            proof {
                assert(item.people@ == self.items@[i as int].1.people@);
            }
            let mut j: usize = 1;
            while j < item.people.len()
                invariant
                    1 <= j,
                    item.people@ == self.items@[i as int].1.people@,
                    i < self.items@.len(),
                    forall|k: int|
                        0 <= k && k + 1 < j && k + 1 < item.people@.len() ==> lex_lt(
                            (#[trigger] item.people@[k]).0@,
                            item.people@[k + 1].0@,
                        ),
                decreases item.people@.len() - j,
            {
                if !str_lt(item.people[j - 1].0.as_str(), item.people[j].0.as_str()) {
                    proof {
                        assert(!(self.items@[i as int]).1.wf()) by {
                            if keys_sorted(self.items@[i as int].1.people@) {
                                assert(lex_lt(
                                    (#[trigger] self.items@[i as int].1.people@[j as int - 1]).0@,
                                    (#[trigger] self.items@[i as int].1.people@[j as int]).0@,
                                ));
                            }
                        }
                    }
                    return false;
                }
                j = j + 1;
            }
            proof {
                lemma_sorted_from_adjacent(item.people@);
            }
            match sum_amount_entries(&item.people) {
                Some(_) => {},
                None => {
                    proof {
                        assert(!(self.items@[i as int]).1.wf());
                    }
                    return false;
                },
            }
            i = i + 1;
        }
        let total_prices = match sum_price_entries(&self.items) {
            Some(v) => v,
            None => {
                proof {
                    lemma_sum_amounts_nonneg(self.extras@);
                }
                return false;
            },
        };
        let total_extras = match sum_amount_entries(&self.extras) {
            Some(v) => v,
            None => {
                proof {
                    lemma_sum_prices_nonneg(self.items@);
                }
                return false;
            },
        };
        if total_extras > u64::MAX - total_prices {
            return false;
        }
        true
    }

    /// The full breakdown of a receipt, checked against its declared total:
    /// the adjusted cost of every item and the total owed by every person,
    /// each rendered with two decimal places. Beyond the failures of the two
    /// computations, fails exactly when either computed sum strays from the
    /// declared total by more than 0.01.
    pub fn process_receipt(&self) -> (r: Result<Output, ReceiptError>)
        requires
            self.wf(),
        ensures
            match r {
                Ok(out) => {
                    &&& !(sum_prices(self.items@) == 0 && sum_amounts(self.extras@) > 0)
                    &&& all_weight_sums_positive(self.items@)
                    &&& within_tolerance(
                        sum_adjusted(
                            self.items@,
                            sum_prices(self.items@),
                            sum_amounts(self.extras@),
                        ),
                        self.total as int,
                    )
                    &&& within_tolerance(
                        total_distributed(
                            self.items@,
                            sum_prices(self.items@),
                            sum_amounts(self.extras@),
                        ),
                        self.total as int,
                    )
                    &&& out.item_costs@.len() == self.items@.len()
                    &&& forall|i: int|
                        0 <= i < out.item_costs@.len() ==> (#[trigger] out.item_costs@[i]).0
                            == self.items@[i].0
                    &&& forall|i: int|
                        0 <= i < out.item_costs@.len() ==> (#[trigger] out.item_costs@[i]).1@
                            == money_string(
                            adjusted_cost(
                                self.items@[i].1.price as int,
                                sum_prices(self.items@),
                                sum_amounts(self.extras@),
                            ),
                        )
                    &&& keys_sorted(out.person_shares@)
                    &&& forall|k: int|
                        0 <= k < out.person_shares@.len() ==> person_appears(
                            self.items@,
                            (#[trigger] out.person_shares@[k]).0@,
                        )
                    &&& forall|k: int|
                        0 <= k < out.person_shares@.len() ==> (#[trigger] out.person_shares@[k]).1@
                            == money_string(
                            person_total(
                                self.items@,
                                sum_prices(self.items@),
                                sum_amounts(self.extras@),
                                out.person_shares@[k].0@,
                            ),
                        )
                    &&& forall|name: Seq<char>|
                        #[trigger] person_appears(self.items@, name) ==> exists|k: int|
                            0 <= k < out.person_shares@.len() && (#[trigger] out.person_shares@[k]).0@
                                == name
                },
                Err(err) => match err {
                    ReceiptError::ZeroItemPriceTotal => sum_prices(self.items@) == 0
                        && sum_amounts(self.extras@) > 0,
                    ReceiptError::ZeroWeightSum => !(sum_prices(self.items@) == 0 && sum_amounts(
                        self.extras@,
                    ) > 0) && !all_weight_sums_positive(self.items@),
                    ReceiptError::TotalMismatch => {
                        &&& !(sum_prices(self.items@) == 0 && sum_amounts(self.extras@) > 0)
                        &&& all_weight_sums_positive(self.items@)
                        &&& (!within_tolerance(
                            sum_adjusted(
                                self.items@,
                                sum_prices(self.items@),
                                sum_amounts(self.extras@),
                            ),
                            self.total as int,
                        ) || !within_tolerance(
                            total_distributed(
                                self.items@,
                                sum_prices(self.items@),
                                sum_amounts(self.extras@),
                            ),
                            self.total as int,
                        ))
                    },
                },
            },
    {
        let ghost s = sum_prices(self.items@);
        let ghost e = sum_amounts(self.extras@);
        let costs = match self.get_item_costs() {
            Ok(c) => c,
            Err(err) => {
                return Err(err);
            },
        };
        let shares = match self.get_person_shares() {
            Ok(p) => p,
            Err(err) => {
                return Err(err);
            },
        };
        proof {
            lemma_sum_amounts_nonneg(self.extras@);
            lemma_costs_sum(costs@, self.items@, s, e);
            lemma_sum_adjusted_bounds(self.items@, s, e);
            lemma_total_distributed_bounds(self.items@, s, e);
            lemma_sum_prices_nonneg(self.items@);
        }
        let cost_sum = match sum_amount_entries(&costs) {
            Some(v) => v,
            None => {
                proof {
                    assert(false);
                }
                0
            },
        };
        let share_sum = match sum_amount_entries(&shares) {
            Some(v) => v,
            None => {
                proof {
                    assert(false);
                }
                0
            },
        };
        let costs_ok = if cost_sum >= self.total {
            cost_sum - self.total <= 100
        } else {
            self.total - cost_sum <= 100
        };
        let shares_ok = if share_sum >= self.total {
            share_sum - self.total <= 100
        } else {
            self.total - share_sum <= 100
        };
        if !costs_ok || !shares_ok {
            return Err(ReceiptError::TotalMismatch);
        }
        let mut item_costs: Vec<(String, String)> = Vec::new();
        let mut i: usize = 0;
        while i < costs.len()
            invariant
                i <= costs@.len(),
                item_costs@.len() == i,
                forall|k: int|
                    0 <= k < i ==> (#[trigger] item_costs@[k]).0 == costs@[k].0
                        && item_costs@[k].1@ == money_string(costs@[k].1 as int),
            decreases costs@.len() - i,
        {
            let entry = &costs[i];
            item_costs.push((entry.0.clone(), format_money(entry.1)));
            i = i + 1;
        }
        let mut person_shares: Vec<(String, String)> = Vec::new();
        let mut i: usize = 0;
        while i < shares.len()
            invariant
                i <= shares@.len(),
                person_shares@.len() == i,
                forall|k: int|
                    0 <= k < i ==> (#[trigger] person_shares@[k]).0 == shares@[k].0
                        && person_shares@[k].1@ == money_string(shares@[k].1 as int),
            decreases shares@.len() - i,
        {
            let entry = &shares[i];
            person_shares.push((entry.0.clone(), format_money(entry.1)));
            i = i + 1;
        }
        proof {
            assert forall|a: int, b: int| 0 <= a < b < person_shares@.len() implies lex_lt(
                (#[trigger] person_shares@[a]).0@,
                (#[trigger] person_shares@[b]).0@,
            ) by {
                assert(person_shares@[a].0 == shares@[a].0);
                assert(person_shares@[b].0 == shares@[b].0);
            }
            assert forall|k: int| 0 <= k < person_shares@.len() implies person_appears(
                self.items@,
                (#[trigger] person_shares@[k]).0@,
            ) by {
                lemma_lookup_at(shares@, k);
                assert(person_in_people(shares@, shares@[k].0@));
            }
            assert forall|name: Seq<char>|
                #[trigger] person_appears(self.items@, name) implies exists|k: int|
                0 <= k < person_shares@.len() && (#[trigger] person_shares@[k]).0@ == name by {
                assert(person_in_people(shares@, name));
                lemma_lookup_some_index(shares@, name);
                let k = choose|k: int| 0 <= k < shares@.len() && (#[trigger] shares@[k]).0@ == name;
                assert(person_shares@[k].0@ == name);
            }
        }
        Ok(Output { item_costs, person_shares })
    }
}

} // verus!
