use linkedslab::SlabMap;

#[test]
fn smoke() {
    let mut map = SlabMap::default();

    for i in 0..1000 {
        map.insert(i, i.to_string());
    }

    println!("{:?}", map);
}
