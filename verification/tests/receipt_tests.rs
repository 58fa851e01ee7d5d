use receipt_splitter::receipt::{Item, Receipt, ReceiptError};

// Amounts are fixed-point integers: 10000 units per currency unit.

fn item(price: u64, people: Vec<(&str, u64)>) -> Item {
    Item { price, people: people.into_iter().map(|(n, w)| (n.to_string(), w)).collect() }
}

fn receipt(items: Vec<(&str, Item)>, extras: Vec<(&str, u64)>, total: u64) -> Receipt {
    Receipt {
        items: items.into_iter().map(|(n, i)| (n.to_string(), i)).collect(),
        extras: extras.into_iter().map(|(n, a)| (n.to_string(), a)).collect(),
        total,
    }
}

#[test]
fn scenario_single_item_two_people() {
    // {"items":{"A":{"price":10,"people":{"x":1,"y":1}}},"extras":{"tax":2},"total":12}
    let r = receipt(
        vec![("A", item(100000, vec![("x", 10000), ("y", 10000)]))],
        vec![("tax", 20000)],
        120000,
    );
    assert!(r.validate());
    let out = r.process_receipt().unwrap();
    assert_eq!(out.item_costs.len(), 1);
    assert_eq!(out.item_costs[0].0, "A");
    assert_eq!(out.item_costs[0].1, "12.00");
    assert_eq!(out.person_shares.len(), 2);
    assert_eq!(out.person_shares[0].0, "x");
    assert_eq!(out.person_shares[0].1, "6.00");
    assert_eq!(out.person_shares[1].0, "y");
    assert_eq!(out.person_shares[1].1, "6.00");
}

#[test]
fn degenerate_zero_prices_nonzero_extras() {
    let r = receipt(
        vec![("A", item(0, vec![("x", 10000)]))],
        vec![("tax", 20000)],
        20000,
    );
    assert!(r.validate());
    assert_eq!(r.process_receipt().unwrap_err(), ReceiptError::ZeroItemPriceTotal);
    assert_eq!(r.get_item_costs().unwrap_err(), ReceiptError::ZeroItemPriceTotal);
}

#[test]
fn zero_weight_item_fails() {
    let r = receipt(vec![("A", item(100000, vec![]))], vec![], 100000);
    assert!(r.validate());
    assert_eq!(r.process_receipt().unwrap_err(), ReceiptError::ZeroWeightSum);
    assert_eq!(r.get_person_shares().unwrap_err(), ReceiptError::ZeroWeightSum);
    // the item costs alone are still defined
    let costs = r.get_item_costs().unwrap();
    assert_eq!(costs, vec![("A".to_string(), 100000)]);
}

#[test]
fn total_mismatch_fails() {
    let r = receipt(
        vec![("A", item(100000, vec![("x", 10000)]))],
        vec![],
        130000,
    );
    assert!(r.validate());
    assert_eq!(r.process_receipt().unwrap_err(), ReceiptError::TotalMismatch);
}

#[test]
fn total_within_tolerance_passes() {
    // declared total off by exactly 0.01: still accepted
    let r = receipt(
        vec![("A", item(100000, vec![("x", 10000)]))],
        vec![],
        100100,
    );
    assert!(r.validate());
    assert!(r.process_receipt().is_ok());
}

#[test]
fn proportional_weights() {
    // one item of 9.00 split 1:2 between x and y
    let r = receipt(
        vec![("A", item(90000, vec![("x", 10000), ("y", 20000)]))],
        vec![],
        90000,
    );
    assert!(r.validate());
    let shares = r.get_person_shares().unwrap();
    assert_eq!(shares, vec![("x".to_string(), 30000), ("y".to_string(), 60000)]);
    let out = r.process_receipt().unwrap();
    assert_eq!(out.person_shares[0].1, "3.00");
    assert_eq!(out.person_shares[1].1, "6.00");
}

#[test]
fn extras_distributed_proportionally() {
    // prices 6.00 and 3.00, extras 3.00: adjusted costs 8.00 and 4.00
    let r = receipt(
        vec![
            ("A", item(60000, vec![("x", 10000)])),
            ("B", item(30000, vec![("y", 10000)])),
        ],
        vec![("delivery", 10000), ("tip", 20000)],
        120000,
    );
    assert!(r.validate());
    let costs = r.get_item_costs().unwrap();
    assert_eq!(costs, vec![("A".to_string(), 80000), ("B".to_string(), 40000)]);
    let total: u64 = costs.iter().map(|c| c.1).sum();
    assert_eq!(total, 120000);
}

#[test]
fn shares_accumulate_across_items() {
    let r = receipt(
        vec![
            ("A", item(40000, vec![("x", 10000)])),
            ("B", item(20000, vec![("x", 10000), ("y", 10000)])),
        ],
        vec![],
        60000,
    );
    assert!(r.validate());
    let shares = r.get_person_shares().unwrap();
    assert_eq!(shares, vec![("x".to_string(), 50000), ("y".to_string(), 10000)]);
}

#[test]
fn person_share_keys_sorted_whatever_item_order() {
    let r = receipt(
        vec![
            ("A", item(10000, vec![("b", 1)])),
            ("B", item(10000, vec![("a", 1)])),
        ],
        vec![],
        20000,
    );
    assert!(r.validate());
    let shares = r.get_person_shares().unwrap();
    assert_eq!(shares, vec![("a".to_string(), 10000), ("b".to_string(), 10000)]);
}

#[test]
fn person_with_zero_weight_still_listed() {
    let r = receipt(
        vec![("A", item(60000, vec![("x", 0), ("y", 10000)]))],
        vec![],
        60000,
    );
    assert!(r.validate());
    let shares = r.get_person_shares().unwrap();
    assert_eq!(shares, vec![("x".to_string(), 0), ("y".to_string(), 60000)]);
    let out = r.process_receipt().unwrap();
    assert_eq!(out.person_shares[0].1, "0.00");
}

#[test]
fn validate_rejects_unsorted_or_duplicate_keys() {
    let good = receipt(
        vec![("A", item(10000, vec![("x", 1)])), ("B", item(10000, vec![("x", 1)]))],
        vec![("tax", 1)],
        20001,
    );
    assert!(good.validate());

    let unsorted_items = receipt(
        vec![("B", item(10000, vec![("x", 1)])), ("A", item(10000, vec![("x", 1)]))],
        vec![],
        20000,
    );
    assert!(!unsorted_items.validate());

    let duplicate_items = receipt(
        vec![("A", item(10000, vec![("x", 1)])), ("A", item(10000, vec![("x", 1)]))],
        vec![],
        20000,
    );
    assert!(!duplicate_items.validate());

    let unsorted_people = receipt(
        vec![("A", item(10000, vec![("y", 1), ("x", 1)]))],
        vec![],
        10000,
    );
    assert!(!unsorted_people.validate());

    let unsorted_extras = receipt(
        vec![("A", item(10000, vec![("x", 1)]))],
        vec![("tip", 1), ("tax", 1)],
        10002,
    );
    assert!(!unsorted_extras.validate());
}

#[test]
fn validate_rejects_overflowing_sums() {
    let r = receipt(
        vec![("A", item(u64::MAX, vec![("x", 1)]))],
        vec![("tax", 1)],
        0,
    );
    assert!(!r.validate());

    let w = receipt(
        vec![("A", item(1, vec![("x", u64::MAX), ("y", 1)]))],
        vec![],
        1,
    );
    assert!(!w.validate());
}

#[test]
fn error_messages_are_nonempty() {
    assert!(!ReceiptError::ZeroItemPriceTotal.message().is_empty());
    assert!(!ReceiptError::ZeroWeightSum.message().is_empty());
    assert!(!ReceiptError::TotalMismatch.message().is_empty());
}

#[test]
fn empty_receipt_is_consistent() {
    let r = receipt(vec![], vec![], 0);
    assert!(r.validate());
    let out = r.process_receipt().unwrap();
    assert!(out.item_costs.is_empty());
    assert!(out.person_shares.is_empty());
}
