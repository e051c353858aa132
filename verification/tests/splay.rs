use linkcut::splay_forest::SplayForest;

#[test]
fn it_works() {
    let mut lct: SplayForest<&str> = SplayForest::new();

    let node1 = lct.add_node("alpha");
    lct.rotate_down(node1);
    let node2 = lct.add_node("bravo");
    let node3 = lct.add_node("charlie");
    lct.set_left(node1, node2.into());
    lct.set_right(node2, Some(node3));

    println!("{:#?}", lct.debug_roots());

    lct.splay(node3);

    println!("{:#?}", lct.debug_roots());
}
