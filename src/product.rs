use vstd::prelude::*;
use crate::space::Space;
use crate::trie::{BytesTrieMap, lex_lt};

verus! {

/// Every concatenation of one path from each set, in order.
pub open spec fn concatenations(sets: Seq<Set<Seq<u8>>>) -> Set<Seq<u8>>
    decreases sets.len(),
{
    if sets.len() == 0 {
        set![Seq::<u8>::empty()]
    } else {
        Set::new(|x: Seq<u8>| exists|p: Seq<u8>, q: Seq<u8>| #![trigger sets[0].contains(p), concatenations(sets.drop_first()).contains(q)]
            sets[0].contains(p) && concatenations(sets.drop_first()).contains(q) && x == p + q)
    }
}

/// The byte strings the vectors hold.
pub open spec fn views(vs: Seq<Vec<u8>>) -> Seq<Seq<u8>> {
    vs.map_values(|t: Vec<u8>| t@)
}

fn concat_bytes(a: &Vec<u8>, b: &Vec<u8>) -> (r: Vec<u8>)
    ensures
        r@ == a@ + b@,
{
    let mut out = crate::encoding::copy_range(a.as_slice(), 0, a.len());
    let mut k: usize = 0;
    let ghost start = out@;
    assert(start =~= a@);
    while k < b.len()
        invariant
            k <= b@.len(),
            out@ == start + b@.subrange(0, k as int),
        decreases b@.len() - k,
    {
        out.push(b[k]);
        k = k + 1;
        assert(out@ =~= start + b@.subrange(0, k as int));
    }
    assert(b@.subrange(0, k as int) =~= b@);
    out
}

/// The concatenations of one path of `first` and each path of `tails`, in
/// a map: the keys are exactly those concatenations.
fn extend(first: &Space, tails: &Vec<Vec<u8>>) -> (r: BytesTrieMap<()>)
    requires
        first.wf(),
    ensures
        r.wf(),
        r.view().dom() == Set::new(|x: Seq<u8>| exists|p: Seq<u8>, q: Seq<u8>| #![trigger first.view().contains(p), views(tails@).contains(q)]
            first.view().contains(p) && views(tails@).contains(q) && x == p + q),
{
    let ps = first.paths();
    let ghost tv = views(tails@);
    let mut m: BytesTrieMap<()> = BytesTrieMap::new();
    let mut i: usize = 0;
    assert(m.view().dom() =~= Set::<Seq<u8>>::empty());
    while i < ps.len()
        invariant
            m.wf(),
            tv == views(tails@),
            i <= ps@.len(),
            forall|a: int| 0 <= a < ps@.len() ==> first.view().contains(#[trigger] ps@[a]@),
            forall|b: Seq<u8>| #[trigger] first.view().contains(b) ==> exists|a: int| 0 <= a < ps@.len() && ps@[a]@ == b,
            m.view().dom() == Set::new(|x: Seq<u8>| exists|a: int, q: Seq<u8>| #![trigger ps@[a], tv.contains(q)] 0 <= a < i && tv.contains(q) && x == ps@[a]@ + q),
        decreases ps@.len() - i,
    {
        let mut j: usize = 0;
        let ghost start = m.view().dom();
        while j < tails.len()
            invariant
                m.wf(),
                tv == views(tails@),
                i < ps@.len(),
                j <= tails@.len(),
                m.view().dom() == start.union(Set::new(|x: Seq<u8>| exists|b: int| 0 <= b < j && x == ps@[i as int]@ + #[trigger] tv[b])),
            decreases tails@.len() - j,
        {
            let c = concat_bytes(&ps[i], &tails[j]);
            let ghost before = m.view().dom();
            m.insert(c.as_slice(), ());
            proof {
                let s1 = Set::new(|x: Seq<u8>| exists|b: int| 0 <= b < j && x == ps@[i as int]@ + #[trigger] tv[b]);
                let s2 = Set::new(|x: Seq<u8>| exists|b: int| 0 <= b < j + 1 && x == ps@[i as int]@ + #[trigger] tv[b]);
                assert(tv[j as int] == tails@[j as int]@);
                assert forall|x: Seq<u8>| s2.contains(x) <==> (s1.contains(x) || x == c@) by {
                    if s2.contains(x) {
                        let b = choose|b: int| 0 <= b < j + 1 && x == ps@[i as int]@ + #[trigger] tv[b];
                        if b < j {
                            assert(s1.contains(x));
                        }
                    }
                    if s1.contains(x) {
                        let b = choose|b: int| 0 <= b < j && x == ps@[i as int]@ + #[trigger] tv[b];
                        assert(s2.contains(x));
                    }
                    if x == c@ {
                        assert(x == ps@[i as int]@ + tv[j as int]);
                    }
                }
                assert(m.view().dom() =~= start.union(s2));
            }
            j = j + 1;
        }
        proof {
            let a0 = Set::new(|x: Seq<u8>| exists|a: int, q: Seq<u8>| #![trigger ps@[a], tv.contains(q)] 0 <= a < i && tv.contains(q) && x == ps@[a]@ + q);
            let a1 = Set::new(|x: Seq<u8>| exists|a: int, q: Seq<u8>| #![trigger ps@[a], tv.contains(q)] 0 <= a < i + 1 && tv.contains(q) && x == ps@[a]@ + q);
            let row = Set::new(|x: Seq<u8>| exists|b: int| 0 <= b < j && x == ps@[i as int]@ + #[trigger] tv[b]);
            assert forall|x: Seq<u8>| a1.contains(x) <==> (a0.contains(x) || row.contains(x)) by {
                if a1.contains(x) {
                    let (a, q) = choose|a: int, q: Seq<u8>| #![trigger ps@[a], tv.contains(q)] 0 <= a < i + 1 && tv.contains(q) && x == ps@[a]@ + q;
                    if a < i {
                        assert(a0.contains(x));
                    } else {
                        let b = choose|b: int| 0 <= b < tv.len() && tv[b] == q;
                        assert(row.contains(x));
                    }
                }
                if a0.contains(x) {
                    let (a, q) = choose|a: int, q: Seq<u8>| #![trigger ps@[a], tv.contains(q)] 0 <= a < i && tv.contains(q) && x == ps@[a]@ + q;
                    assert(a1.contains(x));
                }
                if row.contains(x) {
                    let b = choose|b: int| 0 <= b < j && x == ps@[i as int]@ + #[trigger] tv[b];
                    assert(tv.contains(tv[b]));
                    assert(a1.contains(x));
                }
            }
            assert(m.view().dom() =~= a1);
        }
        i = i + 1;
    }
    proof {
        let got = Set::new(|x: Seq<u8>| exists|a: int, q: Seq<u8>| #![trigger ps@[a], tv.contains(q)] 0 <= a < i && tv.contains(q) && x == ps@[a]@ + q);
        let want = Set::new(|x: Seq<u8>| exists|p: Seq<u8>, q: Seq<u8>| #![trigger first.view().contains(p), tv.contains(q)] first.view().contains(p) && tv.contains(q) && x == p + q);
        assert forall|x: Seq<u8>| got.contains(x) <==> want.contains(x) by {
            if got.contains(x) {
                let (a, q) = choose|a: int, q: Seq<u8>| #![trigger ps@[a], tv.contains(q)] 0 <= a < i && tv.contains(q) && x == ps@[a]@ + q;
                assert(first.view().contains(ps@[a]@));
            }
            if want.contains(x) {
                let (p, q) = choose|p: Seq<u8>, q: Seq<u8>| #![trigger first.view().contains(p), tv.contains(q)] first.view().contains(p) && tv.contains(q) && x == p + q;
                let a = choose|a: int| 0 <= a < ps@.len() && ps@[a]@ == p;
                assert(got.contains(x));
            }
        }
        assert(m.view().dom() =~= want);
    }
    m
}

/// Every concatenation `p · q1 · … · qn` of a path `p` of `spaces[0]` and a
/// path `qi` of each following space, each once, in increasing
/// byte-lexicographic order.
pub fn product_paths(spaces: &Vec<Space>) -> (r: Vec<Vec<u8>>)
    requires
        forall|i: int| 0 <= i < spaces@.len() ==> (#[trigger] spaces@[i]).wf(),
    ensures
        forall|i: int, j: int| 0 <= i < j < r@.len() ==> lex_lt(#[trigger] r@[i]@, #[trigger] r@[j]@),
        views(r@).to_set() == concatenations(spaces@.map_values(|s: Space| s.view())),
{
    let ghost sv = spaces@.map_values(|s: Space| s.view());
    let mut tails: Vec<Vec<u8>> = Vec::new();
    tails.push(Vec::new());
    let mut k: usize = spaces.len();
    proof {
        assert(sv.skip(k as int) =~= Seq::<Set<Seq<u8>>>::empty());
        assert(views(tails@) =~= seq![Seq::<u8>::empty()]);
        assert(views(tails@).to_set() =~= set![Seq::<u8>::empty()]) by {
            assert(views(tails@)[0] == Seq::<u8>::empty());
        }
    }
    while k > 0
        invariant
            sv == spaces@.map_values(|s: Space| s.view()),
            forall|i: int| 0 <= i < spaces@.len() ==> (#[trigger] spaces@[i]).wf(),
            k <= spaces@.len(),
            views(tails@).to_set() == concatenations(sv.skip(k as int)),
            k == spaces@.len() ==> tails@.len() == 1,
            k < spaces@.len() ==> forall|i: int, j: int| 0 <= i < j < tails@.len() ==> lex_lt(#[trigger] tails@[i]@, #[trigger] tails@[j]@),
        decreases k,
    {
        let j = k - 1;
        let m = extend(&spaces[j], &tails);
        let next = m.keys();
        proof {
            let tv = views(tails@);
            let nv = views(next@);
            assert(sv.skip(j as int).drop_first() =~= sv.skip(k as int));
            assert(sv.skip(j as int)[0] == sv[j as int]);
            assert(sv[j as int] == spaces@[j as int].view());
            assert forall|x: Seq<u8>| #[trigger] nv.to_set().contains(x) <==> concatenations(sv.skip(j as int)).contains(x) by {
                if nv.contains(x) {
                    let a = choose|a: int| 0 <= a < nv.len() && nv[a] == x;
                    assert(m.view().contains_key(next@[a]@));
                    let (p, q) = choose|p: Seq<u8>, q: Seq<u8>| #![trigger spaces@[j as int].view().contains(p), tv.contains(q)] spaces@[j as int].view().contains(p) && tv.contains(q) && x == p + q;
                    assert(tv.to_set().contains(q));
                }
                if concatenations(sv.skip(j as int)).contains(x) {
                    let (p, q) = choose|p: Seq<u8>, q: Seq<u8>| #![trigger sv.skip(j as int)[0].contains(p), concatenations(sv.skip(j as int).drop_first()).contains(q)]
                        sv.skip(j as int)[0].contains(p) && concatenations(sv.skip(j as int).drop_first()).contains(q) && x == p + q;
                    assert(tv.to_set().contains(q));
                    assert(tv.contains(q));
                    assert(m.view().dom().contains(x));
                    let a = choose|a: int| 0 <= a < next@.len() && next@[a]@ == x;
                    assert(nv[a] == x);
                }
            }
            assert(nv.to_set() =~= concatenations(sv.skip(j as int)));
        }
        tails = next;
        k = j;
    }
    proof {
        assert(sv.skip(0) =~= sv);
    }
    tails
}

} // verus!
