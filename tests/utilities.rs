use mork_kernel::graph::{nkv_row, nl_row, spo_row};
use mork_kernel::encoding::Term;
use mork_kernel::product::product_paths;
use mork_kernel::space::Space;
use mork_kernel::authority::{prefix_bytes, AccessError, ReadZipper, ZipperHead};
use mork_kernel::encoding::Tag;
use mork_kernel::symbols::SharedMappingHandle;
use mork_kernel::zipper::{find_prefix_overlap, path_as_bytes, ByteMask, Expr, ExprZipper};

#[test]
fn writers_exclude_overlapping_permits() {
    let mut zh = ZipperHead::new();
    let w = zh.new_writer(b"ab").unwrap();
    assert_eq!(zh.new_writer(b"abc"), Err(AccessError::PathConflict));
    assert_eq!(zh.new_reader(b"a"), Err(AccessError::PathConflict));
    assert!(zh.new_reader(b"b").is_ok());
    assert!(zh.new_writer(b"ac").is_ok());
    assert!(zh.release(w));
    assert!(!zh.release(w));
    assert!(zh.new_reader(b"abc").is_ok());
    assert!(zh.new_reader(b"abc").is_ok());
    assert_eq!(zh.new_writer(b"abcd"), Err(AccessError::PathConflict));
}

#[test]
fn read_cursor_moves() {
    let mut rz = ReadZipper::new();
    rz.descend_to(b"xyz");
    assert_eq!(rz.path(), b"xyz");
    assert!(rz.ascend(2));
    assert_eq!(rz.path(), b"x");
    assert!(!rz.ascend(5));
    assert_eq!(rz.origin_path(), b"x".to_vec());
}

#[test]
fn symbol_table_is_idempotent_and_stable() {
    let mut sm = SharedMappingHandle::new();
    let a = sm.get_sym_or_insert(b"alpha");
    let b = sm.get_sym_or_insert(b"beta");
    assert_ne!(a, b);
    assert_eq!(sm.get_sym_or_insert(b"alpha"), a);
    assert_eq!(sm.get_bytes(a), Some(&b"alpha".to_vec()));
    assert_eq!(sm.get_bytes(b), Some(&b"beta".to_vec()));
    assert_eq!(sm.get_bytes(7), None);
}

#[test]
fn prefix_overlap_and_masks() {
    assert_eq!(find_prefix_overlap(b"abcd", b"abxy"), 2);
    assert_eq!(find_prefix_overlap(b"ab", b"abc"), 2);
    assert_eq!(find_prefix_overlap(b"", b"abc"), 0);
    assert_eq!(path_as_bytes(b"p"), b"p");
    let m = ByteMask([0b1010, u64::MAX, 0, 1]).and(&ByteMask([0b0110, 5, u64::MAX, 1]));
    assert_eq!(m.0, [0b0010, 5, 0, 1]);
}

#[test]
fn expression_cursor_reads_and_writes() {
    let mut ez = ExprZipper::new(Expr { bytes: vec![] });
    ez.write_arity(2);
    ez.loc += 1;
    ez.write_symbol(b"ab");
    ez.loc += 3;
    ez.write_new_var();
    ez.loc += 1;
    assert_eq!(ez.root.bytes, vec![2, 194, b'a', b'b', 192]);
    assert_eq!(ez.span(), Some(5));
    assert_eq!(ez.path(), vec![2, 194, b'a', b'b', 192]);
    ez.loc = 1;
    assert_eq!(ez.item(), Some(Tag::SymbolSize(2)));
    assert_eq!(ez.subexpr().unwrap().bytes, vec![194, b'a', b'b']);
    ez.loc = 4;
    ez.write_var_ref(0);
    assert_eq!(ez.root.bytes, vec![2, 194, b'a', b'b', 128]);
    assert_eq!(Expr { bytes: vec![2, 192] }.span(), None);
}

#[test]
fn product_enumerates_concatenations_in_order() {
    let mut s = Space::new();
    s.insert(b"a");
    s.insert(b"ab");
    let mut t = Space::new();
    t.insert(b"z");
    t.insert(b"y");
    let mut u = Space::new();
    u.insert(b"1");
    let out = product_paths(&vec![s, t, u]);
    let expected: Vec<Vec<u8>> = vec![b"aby1".to_vec(), b"abz1".to_vec(), b"ay1".to_vec(), b"az1".to_vec()];
    assert_eq!(out, expected);
    assert_eq!(product_paths(&vec![]), vec![Vec::<u8>::new()]);
    let empty = Space::new();
    let mut one = Space::new();
    one.insert(b"q");
    assert!(product_paths(&vec![one, empty]).is_empty());
}

#[test]
fn graph_rows_are_tagged_tuples() {
    let sym = |b: &[u8]| Term::Symbol(b.to_vec());
    let id = 7i64.to_be_bytes();
    assert_eq!(spo_row(&id, b"KNOWS", &9i64.to_be_bytes()),
        Term::Compound(vec![sym(b"SPO"), sym(&id), sym(b"KNOWS"), sym(&9i64.to_be_bytes())]));
    assert_eq!(nkv_row(&id, b"name", b"Ann"), Term::Compound(vec![sym(b"NKV"), sym(&id), sym(b"name"), sym(b"Ann")]));
    assert_eq!(nl_row(&id, b"Person"), Term::Compound(vec![sym(b"NL"), sym(&id), sym(b"Person")]));
    let mut sp = Space::new();
    assert!(sp.insert_expr(&nl_row(&id, b"Person")));
    assert_eq!(sp.query(&Term::NewVar).len(), sp.len());
}

#[test]
fn checked_transform_refuses_overlapping_permits() {
    let sym = |b: &[u8]| Term::Symbol(b.to_vec());
    let pattern = Term::Compound(vec![sym(b"k"), Term::NewVar]);
    let template = Term::Compound(vec![sym(b"out"), Term::VarRef(0)]);
    let mut sp = Space::new();
    sp.insert_expr(&Term::Compound(vec![sym(b"k"), sym(b"v")]));
    let tp = prefix_bytes(&template);
    assert_eq!(tp, vec![2, 195, b'o', b'u', b't']);
    let mut zh = ZipperHead::new();
    let w = zh.new_reader(&tp).unwrap();
    assert_eq!(sp.transform_checked(&zh, &pattern, &template), Err(AccessError::PathConflict));
    assert_eq!(sp.len(), 1);
    zh.release(w);
    let pp = prefix_bytes(&pattern);
    let _r = zh.new_reader(&pp).unwrap();
    assert_eq!(sp.transform_checked(&zh, &pattern, &template), Ok(()));
    assert_eq!(sp.len(), 2);
}
