use hnsw_ann::pq_params::PQParams;

#[test]
fn default_knobs() {
    let p = PQParams::default();
    assert_eq!(p.n_sub, 4);
    assert_eq!(p.sub_bits, 4);
    assert_eq!(p.train_epoch, 100);
}

#[test]
fn builders_replace_one_knob_each() {
    let p = PQParams::default().n_sub(8).sub_bits(6).train_epoch(250);
    assert_eq!(p.n_sub, 8);
    assert_eq!(p.sub_bits, 6);
    assert_eq!(p.train_epoch, 250);
}
