use module_link::{ModuleId, SymbolId, SymbolRef, Symbols};

fn symbol(module: usize, symbol: usize) -> SymbolRef {
    SymbolRef { owner: ModuleId(module), symbol: SymbolId(symbol) }
}

#[test]
fn new_registry_holds_each_symbol_alone() {
    let mut symbols = Symbols::new(&vec![2, 0, 3]);
    assert!(symbols.is_registered(symbol(0, 0)));
    assert!(symbols.is_registered(symbol(0, 1)));
    assert!(!symbols.is_registered(symbol(0, 2)));
    assert!(!symbols.is_registered(symbol(1, 0)));
    assert!(symbols.is_registered(symbol(2, 2)));
    assert!(!symbols.is_registered(symbol(3, 0)));
    for s in [symbol(0, 0), symbol(0, 1), symbol(2, 0), symbol(2, 1), symbol(2, 2)] {
        assert_eq!(symbols.find(s), s);
    }
}

#[test]
fn union_merges_two_classes() {
    let mut symbols = Symbols::new(&vec![3, 3]);
    symbols.union(symbol(0, 0), symbol(1, 0));
    assert_eq!(symbols.find(symbol(0, 0)), symbols.find(symbol(1, 0)));
    assert_ne!(symbols.find(symbol(0, 1)), symbols.find(symbol(1, 0)));
    symbols.union(symbol(0, 1), symbol(1, 1));
    assert_ne!(symbols.find(symbol(0, 0)), symbols.find(symbol(0, 1)));
    symbols.union(symbol(1, 0), symbol(1, 1));
    let representative = symbols.find(symbol(0, 0));
    for s in [symbol(0, 1), symbol(1, 0), symbol(1, 1)] {
        assert_eq!(symbols.find(s), representative);
    }
    assert_eq!(symbols.find(representative), representative);
    assert_eq!(symbols.find(symbol(0, 2)), symbol(0, 2));
    assert_eq!(symbols.find(symbol(1, 2)), symbol(1, 2));
}

#[test]
fn union_of_one_class_changes_nothing() {
    let mut symbols = Symbols::new(&vec![4]);
    symbols.union(symbol(0, 0), symbol(0, 1));
    let before: Vec<SymbolRef> = (0..4).map(|s| symbols.find(symbol(0, s))).collect();
    symbols.union(symbol(0, 1), symbol(0, 0));
    symbols.union(symbol(0, 2), symbol(0, 2));
    let after: Vec<SymbolRef> = (0..4).map(|s| symbols.find(symbol(0, s))).collect();
    assert_eq!(before, after);
}

#[test]
fn long_chain_of_unions_is_one_class() {
    let n = 200;
    let mut symbols = Symbols::new(&vec![n]);
    for s in 1..n {
        symbols.union(symbol(0, s - 1), symbol(0, s));
    }
    let representative = symbols.find(symbol(0, 0));
    for s in 0..n {
        assert_eq!(symbols.find(symbol(0, s)), representative);
    }
}
