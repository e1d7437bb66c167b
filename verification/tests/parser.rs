use findupdate::parser::{kv_key, kv_pair, kv_pairs, take_type};

#[test]
fn test_take_type() {
    let test = &mut "test::1";
    let res = take_type(test);

    assert_eq!(res, Ok("test"));
    assert_eq!(test, &mut "::1");
}

#[test]
fn test_kv_key() {
    let test = &mut "a_b123";
    let res = kv_key(test);
    assert_eq!(res, Ok("a_b123"));
    assert_eq!(test, &mut "");
}

#[test]
fn test_kv() {
    let test = &mut "a=b;";
    let res = kv_pair(test);
    assert_eq!(res, Ok(("a", "b")));
    assert_eq!(test, &mut ";")
}

#[test]
fn test_kv_pairs() {
    let test = &mut "a=b;b=d;";
    let res = kv_pairs(test);

    assert_eq!(res, Ok(vec![("a", "b"), ("b", "d")]));
    assert_eq!(test, &mut "");
}
