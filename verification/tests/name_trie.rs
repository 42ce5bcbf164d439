//! The trie of names.
use mangle::ir::{Inst, Ir};
use mangle::name_trie::NameTrie;

#[test]
fn basic_trie_operations() {
    let mut trie = NameTrie::new();
    trie.add("/animal");
    trie.add("/animal/dog");
    trie.add("/color");

    assert!(trie.contains("/animal"));
    assert!(trie.contains("/animal/dog"));
    assert!(trie.contains("/color"));
    assert!(!trie.contains("/animal/cat"));
    assert!(!trie.contains("/plant"));
}

#[test]
fn prefix_name_lookup() {
    let mut trie = NameTrie::new();
    trie.add("/animal");
    trie.add("/animal/dog");

    assert_eq!(trie.prefix_name("/animal/dog/poodle"), "/animal/dog");
    assert_eq!(trie.prefix_name("/animal/cat"), "/animal");
    assert_eq!(trie.prefix_name("/animal"), "/animal");
    assert_eq!(trie.prefix_name("/plant/rose"), "/name");
}

#[test]
fn collect_from_type_expr() {
    let mut ir = Ir::new();
    let mut trie = NameTrie::new();

    // Build: fn:Struct(/x, /animal, /y, /color)
    let x = {
        let n = ir.intern_name("/x");
        ir.add_inst(Inst::Name(n))
    };
    let animal = {
        let n = ir.intern_name("/animal");
        ir.add_inst(Inst::Name(n))
    };
    let y = {
        let n = ir.intern_name("/y");
        ir.add_inst(Inst::Name(n))
    };
    let color = {
        let n = ir.intern_name("/color");
        ir.add_inst(Inst::Name(n))
    };
    let struct_name = ir.intern_name("fn:Struct");
    let struct_type = ir.add_inst(Inst::ApplyFn {
        function: struct_name,
        args: vec![x, animal, y, color],
    });

    trie.collect(&ir, struct_type);
    assert!(trie.contains("/x"));
    assert!(trie.contains("/animal"));
    assert!(trie.contains("/y"));
    assert!(trie.contains("/color"));
}

#[test]
fn collect_from_tagged_union_skips_tags() {
    let mut ir = Ir::new();
    let mut trie = NameTrie::new();

    // fn:TaggedUnion(/kind, /move, fn:Struct(/x, /number), /quit, fn:Struct())
    let kind = {
        let n = ir.intern_name("/kind");
        ir.add_inst(Inst::Name(n))
    };
    let move_ = {
        let n = ir.intern_name("/move");
        ir.add_inst(Inst::Name(n))
    };
    let x = {
        let n = ir.intern_name("/x");
        ir.add_inst(Inst::Name(n))
    };
    let number = {
        let n = ir.intern_name("/number");
        ir.add_inst(Inst::Name(n))
    };
    let struct_name = ir.intern_name("fn:Struct");
    let move_struct = ir.add_inst(Inst::ApplyFn {
        function: struct_name,
        args: vec![x, number],
    });
    let quit = {
        let n = ir.intern_name("/quit");
        ir.add_inst(Inst::Name(n))
    };
    let quit_struct = ir.add_inst(Inst::ApplyFn {
        function: struct_name,
        args: vec![],
    });
    let tu_name = ir.intern_name("fn:TaggedUnion");
    let tu = ir.add_inst(Inst::ApplyFn {
        function: tu_name,
        args: vec![kind, move_, move_struct, quit, quit_struct],
    });

    trie.collect(&ir, tu);

    // Should collect /x and /number from variant structs.
    assert!(trie.contains("/x"));
    // /number is a base type, so it should NOT be collected.
    assert!(!trie.contains("/number"));
    // Should NOT collect /kind (tag field), /move, /quit (tag values).
    assert!(!trie.contains("/kind"));
    assert!(!trie.contains("/move"));
    assert!(!trie.contains("/quit"));
}
