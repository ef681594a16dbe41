use copernica::bayes::{Bayes, LogRatio, Ratio};
use copernica::hbfi::{HBFIOnlyKeys, HBFI};
use copernica::identity::{PrivateIdentity, PublicIdentity};
use copernica::link::{LinkId, ReplyTo};
use std::f64::consts::LN_2;

fn bfis(lane: u16) -> HBFI {
    HBFI {
        request_pid: None,
        response_pid: PublicIdentity::from_bytes([0; 64]),
        app: [lane; 6],
        m0d: [lane; 6],
        fun: [lane; 6],
        arg: [lane; 6],
        ost: 0,
    }
}

fn generate_max_bfis() -> HBFI {
    bfis(u16::MAX)
}

fn generate_mid_bfis() -> HBFI {
    bfis(u16::MAX / 2)
}

fn generate_min_bfis() -> HBFI {
    bfis(u16::MIN)
}

fn link(channel: u32) -> LinkId {
    LinkId::listen(PrivateIdentity::from_seed(rand::random()), None, ReplyTo::Rf(channel))
}

fn value(ratio: Ratio) -> f64 {
    ratio.num as f64 / ratio.den as f64
}

fn log_value(weight: LogRatio) -> f64 {
    match weight {
        LogRatio::Log { num, den, shift } => shift as f64 + ((num as f64).ln() - (den as f64).ln()),
        LogRatio::MinusInfinity => f64::NEG_INFINITY,
    }
}

#[test]
fn bfi_add() {
    let mut model = Bayes::new();
    let h1 = generate_max_bfis();
    let li = link(0);
    model.train(&h1, &li);
    assert_eq!(model.get_frequency(&HBFIOnlyKeys(h1), &li).0.unwrap(), 1);
}

#[test]
fn get_non_existing() {
    let model = Bayes::new();
    let h1 = generate_max_bfis();
    let li = link(0);
    assert_eq!(model.get_frequency(&HBFIOnlyKeys(h1), &li), (None, false));
}

#[test]
fn linkid_add() {
    let mut model = Bayes::new();
    let h1 = link(0);
    model.train(&generate_min_bfis(), &h1);
    assert_eq!(model.get_count(&h1).unwrap(), 1);
}

#[test]
fn linkid_get_nonexistent() {
    let model = Bayes::new();
    assert_eq!(model.get_count(&link(0)), None);
}

#[test]
fn get_counts() {
    let mut model = Bayes::new();
    let h1 = link(0);
    model.train(&generate_min_bfis(), &h1);
    model.train(&generate_min_bfis(), &h1);
    assert_eq!(model.get_count(&h1).unwrap(), 2);
    assert_eq!(model.classify(&generate_min_bfis()).len(), 1);
}

#[test]
fn get_nonexistent_total() {
    let model = Bayes::new();
    assert_eq!(model.total(), 0);
}

#[test]
fn get_total() {
    let mut model = Bayes::new();
    let h1 = link(0);
    let h2 = link(1);
    let h3 = link(2);
    let h = generate_min_bfis();
    model.train(&h, &h1);
    model.train(&h, &h1);
    model.train(&h, &h2);
    model.train(&h, &h3);
    assert_eq!(model.total(), 4);
}

#[test]
fn test_prior() {
    let mut nb = Bayes::new();
    let h1 = generate_min_bfis();
    let l1 = link(0);
    nb.train(&h1, &l1);
    let prior = nb.prior(&l1).map(value);
    assert_eq!(prior, Some(1.0));
}

#[test]
fn test_log_prior() {
    let mut nb = Bayes::new();
    let h1 = generate_max_bfis();
    let l1 = link(0);
    nb.train(&h1, &l1);
    let prior = nb.log_prior(&l1).map(log_value);
    assert_eq!(prior, Some(0.0));
}

#[test]
fn test_prior_nonexistent() {
    let mut nb = Bayes::new();
    let h1 = generate_min_bfis();
    let l1 = link(0);
    let l2 = link(1);
    nb.train(&h1, &l1);
    assert_eq!(nb.prior(&l2), None);
    assert_eq!(nb.log_prior(&l2), None);
}

#[test]
fn test_classification() {
    let mut nb = Bayes::new();
    let h1 = generate_min_bfis();
    let l1 = link(0);
    nb.train(&h1, &l1);
    let h2 = generate_mid_bfis();
    let l2 = link(1);
    nb.train(&h2, &l2);
    let classes = nb.classify(&h1);
    assert_eq!(classes.len(), 2);
    assert_eq!(classes[0].linkid, l1);
    assert_eq!(classes[1].linkid, l2);
    assert_eq!(value(classes[0].weight), 0.5f64);
    assert_eq!(value(classes[1].weight), 0.0000000005f64);
}

#[test]
fn test_log_classification() {
    let mut nb = Bayes::new();
    let h1 = generate_min_bfis();
    let l1 = link(0);
    nb.train(&h1, &l1);
    let h2 = generate_mid_bfis();
    let l2 = link(1);
    nb.train(&h2, &l2);
    let classes = nb.log_classify(&HBFIOnlyKeys(h1));
    assert_eq!(classes.len(), 2);
    assert_eq!(classes[0].linkid, l1);
    assert_eq!(classes[1].linkid, l2);
    assert_eq!(log_value(classes[0].weight), -LN_2);
    assert_eq!(log_value(classes[1].weight), -100.69314718055995);
}

#[test]
fn weights_are_exact_quotients() {
    let mut nb = Bayes::new();
    let h = generate_min_bfis();
    let l1 = link(0);
    let l2 = link(1);
    nb.train(&h, &l1);
    nb.train(&h, &l1);
    nb.super_train(&h, &l2);
    nb.train(&generate_mid_bfis(), &l1);
    let classes = nb.classify(&h);
    assert_eq!(classes[0].linkid, l2);
    assert_eq!(classes[0].weight, Ratio { num: 4_000_000_000, den: 7_000_000_000 });
    assert_eq!(classes[1].linkid, l1);
    assert_eq!(classes[1].weight, Ratio { num: 2_000_000_000, den: 7_000_000_000 });
    let logs = nb.log_classify(&HBFIOnlyKeys(h));
    assert_eq!(logs[0].linkid, l2);
    assert_eq!(logs[0].weight, LogRatio::Log { num: 4, den: 7, shift: 0 });
    assert_eq!(logs[1].weight, LogRatio::Log { num: 2, den: 7, shift: 0 });
}

#[test]
fn super_train_counts_four() {
    let mut nb = Bayes::new();
    let h = generate_max_bfis();
    let l = link(0);
    nb.super_train(&h, &l);
    assert_eq!(nb.get_count(&l), Some(4));
    assert_eq!(nb.get_frequency(&HBFIOnlyKeys(h), &l), (Some(4), true));
    assert_eq!(nb.total(), 4);
    nb.train(&h, &l);
    assert_eq!(nb.get_frequency(&HBFIOnlyKeys(h), &l), (Some(5), true));
    assert_eq!(nb.total(), 5);
}

#[test]
fn a_registered_link_has_count_zero() {
    let mut nb = Bayes::new();
    let l1 = link(0);
    let l2 = link(1);
    nb.add_link(&l1);
    assert_eq!(nb.get_count(&l1), Some(0));
    assert_eq!(nb.total(), 0);
    assert_eq!(nb.prior(&l1), None);
    assert_eq!(nb.classify(&generate_min_bfis()).len(), 0);
    assert_eq!(nb.log_classify(&HBFIOnlyKeys(generate_min_bfis())).len(), 0);
    nb.train(&generate_min_bfis(), &l2);
    nb.add_link(&l2);
    assert_eq!(nb.get_count(&l2), Some(1));
    assert_eq!(nb.prior(&l1), Some(Ratio { num: 0, den: 1 }));
    assert_eq!(nb.log_prior(&l1), Some(LogRatio::MinusInfinity));
    let classes = nb.classify(&generate_min_bfis());
    assert_eq!(classes.len(), 2);
    assert_eq!(classes[0].linkid, l2);
    assert_eq!(value(classes[0].weight), 1.0);
    assert_eq!(classes[1].linkid, l1);
    assert_eq!(value(classes[1].weight), 0.0);
    let logs = nb.log_classify(&HBFIOnlyKeys(generate_min_bfis()));
    assert_eq!(logs[1].linkid, l1);
    assert_eq!(log_value(logs[1].weight), f64::NEG_INFINITY);
}

#[test]
fn ties_go_to_the_link_seen_first() {
    let mut nb = Bayes::new();
    let h = generate_min_bfis();
    let links: Vec<LinkId> = (0..5).map(|n| LinkId::new(50 - n, PrivateIdentity::from_seed([n as u8; 32]), None, ReplyTo::Mpsc)).collect();
    for l in &links {
        nb.train(&h, l);
    }
    nb.train(&h, &links[3]);
    let classes = nb.classify(&h);
    let order: Vec<u32> = classes.iter().map(|c| c.linkid.lookup_id).collect();
    assert_eq!(order, vec![47, 50, 49, 48, 46]);
    let logs = nb.log_classify(&HBFIOnlyKeys(h));
    let order: Vec<u32> = logs.iter().map(|c| c.linkid.lookup_id).collect();
    assert_eq!(order, vec![47, 50, 49, 48, 46]);
}

#[test]
fn a_stream_never_seen_gets_the_minimal_probability() {
    let mut nb = Bayes::new();
    let l1 = link(0);
    let l2 = link(1);
    nb.train(&generate_min_bfis(), &l1);
    nb.super_train(&generate_mid_bfis(), &l2);
    let classes = nb.classify(&generate_max_bfis());
    assert_eq!(classes[0].linkid, l2);
    assert_eq!(classes[0].weight, Ratio { num: 4, den: 5_000_000_000 });
    assert_eq!(value(classes[0].weight), 0.8e-9);
    assert_eq!(classes[1].linkid, l1);
    assert_eq!(classes[1].weight, Ratio { num: 1, den: 5_000_000_000 });
    let logs = nb.log_classify(&HBFIOnlyKeys(generate_max_bfis()));
    assert_eq!(logs[0].linkid, l2);
    assert!((log_value(logs[0].weight) - (-100.0 + 0.8f64.ln())).abs() < 1e-12);
    assert_eq!(logs[1].linkid, l1);
    assert!((log_value(logs[1].weight) - (-100.0 + 0.2f64.ln())).abs() < 1e-12);
}

#[test]
fn a_first_sighting_raises_the_weight() {
    let mut nb = Bayes::new();
    let h = generate_max_bfis();
    let l1 = link(0);
    for _ in 0..5 {
        nb.train(&generate_min_bfis(), &l1);
    }
    let before = nb.classify(&h)[0].weight;
    assert_eq!(before, Ratio { num: 5, den: 5_000_000_000 });
    nb.train(&h, &l1);
    let after = nb.classify(&h)[0].weight;
    assert_eq!(after, Ratio { num: 1_000_000_000, den: 6_000_000_000 });
    assert!(value(after) > value(before));
}

#[test]
fn the_offset_does_not_tell_streams_apart() {
    let mut nb = Bayes::new();
    let l = link(0);
    let h = generate_mid_bfis();
    nb.train(&h.offset(5), &l);
    nb.train(&h.offset(6), &l);
    assert_eq!(nb.get_frequency(&HBFIOnlyKeys(h.offset(77)), &l), (Some(2), true));
    assert_eq!(nb.get_frequency(&HBFIOnlyKeys(generate_min_bfis()), &l), (None, false));
    let other = link(1);
    assert_eq!(nb.get_frequency(&HBFIOnlyKeys(h), &other), (None, true));
}

#[test]
fn more_evidence_more_weight() {
    let mut nb = Bayes::new();
    let h = generate_min_bfis();
    let l1 = link(0);
    let l2 = link(1);
    nb.train(&h, &l1);
    nb.train(&h, &l2);
    nb.train(&generate_mid_bfis(), &l2);
    let before = nb.classify(&h).into_iter().find(|c| c.linkid == l1).unwrap().weight;
    nb.train(&h, &l1);
    let after = nb.classify(&h).into_iter().find(|c| c.linkid == l1).unwrap().weight;
    assert_eq!(before, Ratio { num: 1_000_000_000, den: 3_000_000_000 });
    assert_eq!(after, Ratio { num: 2_000_000_000, den: 4_000_000_000 });
    assert!(value(after) > value(before));
}
