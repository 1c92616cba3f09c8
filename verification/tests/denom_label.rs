use bignum::denom::SerializableDenom;

#[test]
fn native_label() {
    let d = SerializableDenom::Native(String::from("atom"));
    assert_eq!(d.label().as_str(), "native_atom");
}

#[test]
fn cw20_label() {
    let d = SerializableDenom::Cw20(String::from("contract7"));
    assert_eq!(d.label().as_str(), "cw20_contract7");
}
