use orbweaver::InternerBuilder;

#[test]
fn can_build_interner() {
    let mut builder = InternerBuilder::new();
    let int1 = builder.get_or_intern("Hello");
    let int2 = builder.get_or_intern("World");
    let resolver = builder.build();
    assert_eq!(resolver.strs(), ["Hello", "World"]);
    assert_eq!(int1, 0);
    assert_eq!(int2, 1);
}

#[test]
fn can_access_after_move() {
    let mut builder = InternerBuilder::new();
    let int1 = builder.get_or_intern("Hello");
    let int2 = builder.get_or_intern("World");
    let resolver = builder.build();
    assert_eq!(resolver.strs(), ["Hello", "World"]);
    assert_eq!(int1, 0);
    assert_eq!(int2, 1);

    let resolver2 = resolver;

    assert_eq!(resolver2.strs(), ["Hello", "World"]);
}

#[test]
fn interning_twice_gives_the_same_symbol() {
    let mut builder = InternerBuilder::new();
    assert_eq!(builder.get_or_intern("a"), 0);
    assert_eq!(builder.get_or_intern("b"), 1);
    assert_eq!(builder.get_or_intern("a"), 0);
    assert_eq!(builder.len(), 2);
    let resolver = builder.build();
    assert_eq!(resolver.get("b"), Some(1));
    assert_eq!(resolver.get("c"), None);
    assert_eq!(resolver.resolve(0), "a");
    assert_eq!(resolver.resolve_many(&[1, 0, 1]).as_vec(), ["b", "a", "b"]);
}
