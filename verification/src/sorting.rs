//! Products in the order of their names.

use crate::bink::{distinct_names, sorted_by_name, Product};
use crate::text::{
    compare_names, lemma_name_before_transitive, lemma_name_order_total, name_before, NameOrder,
};
use vstd::multiset::Multiset;
use vstd::prelude::*;

verus! {

/// Whether the product `p` stands in `s` at the place `from` or after it.
pub open spec fn stands_in(p: Product, s: Seq<Product>, from: int) -> bool {
    exists|j: int| from <= j < s.len() && #[trigger] s[j] == p
}

/// Whether `sorted` holds exactly the products that stand in `all` from the
/// place `from` on.
#[verifier::opaque]
pub open spec fn holds_tail(sorted: Seq<Product>, all: Seq<Product>, from: int) -> bool {
    &&& forall|k: int| 0 <= k < sorted.len() ==> #[trigger] stands_in(sorted[k], all, from)
    &&& forall|j: int| from <= j < all.len() ==> #[trigger] stands_in(all[j], sorted, 0)
}

/// Whether no two of the products that stand in `all` from the place `from`
/// on have the same name.
#[verifier::opaque]
pub open spec fn distinct_from(all: Seq<Product>, from: int) -> bool {
    forall|i: int, j: int|
        from <= i < j < all.len() ==> #[trigger] all[i].name@ != #[trigger] all[j].name@
}

/// Whether the place `at` is where a product of the name `name` belongs among
/// the sorted products: all before it come before the name, and the name
/// does not come after the product that stands there.
pub open spec fn is_place(sorted: Seq<Product>, name: Seq<char>, at: int) -> bool {
    &&& 0 <= at <= sorted.len()
    &&& forall|k: int| 0 <= k < at ==> name_before(#[trigger] sorted[k].name@, name)
    &&& at < sorted.len() ==> !name_before(sorted[at].name@, name)
}

/// A sequence with one more item in it holds that item once more and all else
/// as often as before.
pub proof fn lemma_insert_to_multiset(s: Seq<Product>, at: int, item: Product)
    requires
        0 <= at <= s.len(),
    ensures
        s.insert(at, item).to_multiset() == s.to_multiset().insert(item),
{
    broadcast use vstd::seq_lib::group_to_multiset_ensures;

    let longer = s.insert(at, item);
    assert(longer.remove(at) =~= s);
    assert(longer[at] == item);
    assert(longer.contains(item));
    assert(longer.to_multiset().count(item) > 0);
    assert(longer.to_multiset() =~= s.to_multiset().insert(item));
}

/// Moving the last item of one sequence to any place of another leaves the
/// two together with the same items.
pub proof fn lemma_move_keeps_items(taken: Seq<Product>, left: Seq<Product>, at: int)
    requires
        0 <= at <= taken.len(),
        left.len() > 0,
    ensures
        taken.insert(at, left.last()).to_multiset().add(left.drop_last().to_multiset())
            == taken.to_multiset().add(left.to_multiset()),
{
    broadcast use vstd::seq_lib::group_to_multiset_ensures;

    lemma_insert_to_multiset(taken, at, left.last());
    assert(left =~= left.drop_last().push(left.last()));
    assert(left.to_multiset() =~= left.drop_last().to_multiset().insert(left.last()));
    assert(taken.insert(at, left.last()).to_multiset().add(left.drop_last().to_multiset())
        =~= taken.to_multiset().add(left.to_multiset()));
}

/// With nothing taken yet, or nothing left, the two sequences together hold
/// what the one that is not empty holds.
pub proof fn lemma_items_at_ends(s: Seq<Product>)
    ensures
        Seq::<Product>::empty().to_multiset().add(s.to_multiset()) == s.to_multiset(),
        s.to_multiset().add(Seq::<Product>::empty().to_multiset()) == s.to_multiset(),
{
    broadcast use vstd::seq_lib::group_to_multiset_ensures;

    assert(Seq::<Product>::empty().to_multiset() =~= Multiset::<Product>::empty());
    assert(Seq::<Product>::empty().to_multiset().add(s.to_multiset()) =~= s.to_multiset());
    assert(s.to_multiset().add(Seq::<Product>::empty().to_multiset()) =~= s.to_multiset());
}

/// Where a name has its place among sorted products and the product at that
/// place has another name, no product has the name.
pub proof fn lemma_name_absent(sorted: Seq<Product>, name: Seq<char>, at: int)
    requires
        sorted_by_name(sorted),
        is_place(sorted, name, at),
        at < sorted.len() ==> sorted[at].name@ != name,
    ensures
        forall|k: int| 0 <= k < sorted.len() ==> (#[trigger] sorted[k]).name@ != name,
        at < sorted.len() ==> name_before(name, sorted[at].name@),
{
    if at < sorted.len() {
        lemma_name_order_total(name, sorted[at].name@);
    }
    assert forall|k: int| 0 <= k < sorted.len() implies (#[trigger] sorted[k]).name@ != name by {
        lemma_name_order_total(name, sorted[k].name@);
        if k > at {
            lemma_name_before_transitive(name, sorted[at].name@, sorted[k].name@);
        }
    }
}

/// A product put at its place among sorted products of other names leaves
/// them sorted.
pub proof fn lemma_insert_keeps_order(sorted: Seq<Product>, at: int, item: Product)
    requires
        sorted_by_name(sorted),
        is_place(sorted, item.name@, at),
        at < sorted.len() ==> sorted[at].name@ != item.name@,
    ensures
        sorted_by_name(sorted.insert(at, item)),
        forall|k: int| 0 <= k < sorted.len() ==> (#[trigger] sorted[k]).name@ != item.name@,
{
    let longer = sorted.insert(at, item);
    lemma_name_absent(sorted, item.name@, at);
    assert forall|a: int, b: int| 0 <= a < b < longer.len() implies name_before(
        #[trigger] longer[a].name@,
        #[trigger] longer[b].name@,
    ) by {
        if b < at {
            assert(longer[a] == sorted[a] && longer[b] == sorted[b]);
        } else if b == at {
            assert(longer[a] == sorted[a]);
        } else if a < at {
            assert(longer[a] == sorted[a] && longer[b] == sorted[b - 1]);
            if b - 1 == at {
            } else {
                assert(name_before(sorted[a].name@, sorted[b - 1].name@));
            }
        } else if a == at {
            assert(longer[b] == sorted[b - 1]);
            if b - 1 > at {
                lemma_name_before_transitive(item.name@, sorted[at].name@, sorted[b - 1].name@);
            }
        } else {
            assert(longer[a] == sorted[a - 1] && longer[b] == sorted[b - 1]);
            assert(name_before(sorted[a - 1].name@, sorted[b - 1].name@));
        }
    }
}

/// Taking the product before the tail into the sorted products makes them
/// hold the longer tail.
pub proof fn lemma_insert_holds_tail(sorted: Seq<Product>, all: Seq<Product>, from: int, at: int)
    requires
        0 < from <= all.len(),
        0 <= at <= sorted.len(),
        holds_tail(sorted, all, from),
    ensures
        holds_tail(sorted.insert(at, all[from - 1]), all, from - 1),
{
    reveal(holds_tail);
    let longer = sorted.insert(at, all[from - 1]);
    assert forall|k: int| 0 <= k < longer.len() implies #[trigger] stands_in(
        longer[k],
        all,
        from - 1,
    ) by {
        if k == at {
            assert(all[from - 1] == longer[k]);
        } else {
            let before = if k < at {
                k
            } else {
                k - 1
            };
            assert(longer[k] == sorted[before]);
            assert(stands_in(sorted[before], all, from));
            let j = choose|j: int| from <= j < all.len() && all[j] == sorted[before];
            assert(all[j] == longer[k]);
        }
    }
    assert forall|j: int| from - 1 <= j < all.len() implies #[trigger] stands_in(
        all[j],
        longer,
        0,
    ) by {
        if j == from - 1 {
            assert(longer[at] == all[j]);
        } else {
            assert(stands_in(all[j], sorted, 0));
            let k = choose|k: int| 0 <= k < sorted.len() && sorted[k] == all[j];
            if k < at {
                assert(longer[k] == all[j]);
            } else {
                assert(longer[k + 1] == all[j]);
            }
        }
    }
}

/// Taking the product before the tail into the sorted products, at its
/// place and where no product of its name stands yet, leaves them sorted, with
/// the same products in all, and the longer tail without a name twice.
pub proof fn lemma_take_one(
    sorted: Seq<Product>,
    rest: Seq<Product>,
    all: Seq<Product>,
    from: int,
    at: int,
)
    requires
        0 < from <= all.len(),
        rest == all.subrange(0, from),
        sorted_by_name(sorted),
        holds_tail(sorted, all, from),
        distinct_from(all, from),
        is_place(sorted, all[from - 1].name@, at),
        at < sorted.len() ==> sorted[at].name@ != all[from - 1].name@,
        sorted.to_multiset().add(rest.to_multiset()) == all.to_multiset(),
    ensures
        sorted_by_name(sorted.insert(at, all[from - 1])),
        holds_tail(sorted.insert(at, all[from - 1]), all, from - 1),
        distinct_from(all, from - 1),
        sorted.insert(at, all[from - 1]).to_multiset().add(
            all.subrange(0, from - 1).to_multiset(),
        ) == all.to_multiset(),
{
    let item = all[from - 1];
    lemma_insert_keeps_order(sorted, at, item);
    lemma_insert_holds_tail(sorted, all, from, at);
    lemma_move_keeps_items(sorted, rest, at);
    assert(rest.last() == item);
    assert(rest.drop_last() =~= all.subrange(0, from - 1));
    lemma_tail_grows_distinct(sorted, all, from);
}

/// Where the sorted products hold the tail, no name stands twice in the tail,
/// and none of the sorted products has the name of the product before the
/// tail, no name stands twice in the longer tail.
pub proof fn lemma_tail_grows_distinct(sorted: Seq<Product>, all: Seq<Product>, from: int)
    requires
        0 < from <= all.len(),
        holds_tail(sorted, all, from),
        distinct_from(all, from),
        forall|k: int| 0 <= k < sorted.len() ==> (#[trigger] sorted[k]).name@ != all[from - 1].name@,
    ensures
        distinct_from(all, from - 1),
{
    reveal(distinct_from);
    assert forall|i: int, j: int| from - 1 <= i < j < all.len() implies #[trigger] all[i].name@
        != #[trigger] all[j].name@ by {
        if i == from - 1 {
            reveal(holds_tail);
            assert(stands_in(all[j], sorted, 0));
            let k = choose|k: int| 0 <= k < sorted.len() && sorted[k] == all[j];
            assert(sorted[k].name@ != all[from - 1].name@);
        }
    }
}

/// Where a product of the name of the product before the tail stands among
/// the sorted products already, two of all the products have the same name.
pub proof fn lemma_name_twice(sorted: Seq<Product>, all: Seq<Product>, from: int, at: int)
    requires
        0 < from <= all.len(),
        holds_tail(sorted, all, from),
        0 <= at < sorted.len(),
        sorted[at].name@ == all[from - 1].name@,
    ensures
        !distinct_names(all),
{
    reveal(holds_tail);
    assert(stands_in(sorted[at], all, from));
    let j = choose|j: int| from <= j < all.len() && all[j] == sorted[at];
    assert(all[from - 1].name@ == all[j].name@);
}

/// Finds the place where a product of the name `name` belongs among the
/// sorted products, and whether a product of that name stands there.
pub fn find_place(sorted: &[Product], name: &str) -> (r: (usize, bool))
    ensures
        is_place(sorted@, name@, r.0 as int),
        r.1 <==> r.0 < sorted@.len() && sorted@[r.0 as int].name@ == name@,
{
    let mut at: usize = 0;
    while at < sorted.len()
        invariant
            at <= sorted@.len(),
            forall|k: int| 0 <= k < at ==> name_before(#[trigger] sorted@[k].name@, name@),
        decreases sorted@.len() - at,
    {
        let order: NameOrder = compare_names(sorted[at].name.as_str(), name);
        proof {
            lemma_name_order_total(sorted@[at as int].name@, name@);
        }
        match order {
            NameOrder::Before => {
                at = at + 1;
            },
            NameOrder::Same => {
                return (at, true);
            },
            NameOrder::After => {
                return (at, false);
            },
        }
    }
    (at, false)
}

/// Puts the products in the order of their names, or finds that two of them
/// have the same name.
pub fn sort_products(products: Vec<Product>) -> (r: Option<Vec<Product>>)
    ensures
        r is Some <==> distinct_names(products@),
        r matches Some(sorted) ==> sorted_by_name(sorted@) && sorted@.to_multiset()
            == products@.to_multiset(),
{
    let ghost all = products@;
    let mut rest: Vec<Product> = products;
    let mut out: Vec<Product> = Vec::new();
    proof {
        assert(rest@.subrange(0, rest@.len() as int) =~= rest@);
        assert(out@ =~= Seq::<Product>::empty());
        lemma_items_at_ends(all);
        reveal(holds_tail);
        reveal(distinct_from);
    }
    while rest.len() > 0
        invariant
            all == products@,
            rest@.len() <= all.len(),
            rest@ == all.subrange(0, rest@.len() as int),
            sorted_by_name(out@),
            out@.to_multiset().add(rest@.to_multiset()) == all.to_multiset(),
            holds_tail(out@, all, rest@.len() as int),
            distinct_from(all, rest@.len() as int),
        decreases rest@.len(),
    {
        let ghost rest_before = rest@;
        let ghost from = rest@.len() as int;
        let item: Product = rest.pop().unwrap();
        assert(item == all[from - 1]);
        let (at, same) = find_place(out.as_slice(), item.name.as_str());
        if same {
            proof {
                lemma_name_twice(out@, all, from, at as int);
            }
            return None;
        }
        proof {
            lemma_take_one(out@, rest_before, all, from, at as int);
            assert(rest@ =~= all.subrange(0, from - 1));
        }
        out.insert(at, item);
    }
    proof {
        assert(rest@ =~= Seq::<Product>::empty());
        lemma_items_at_ends(out@);
        reveal(distinct_from);
    }
    Some(out)
}

/// The order of names leaves one way only to put given products in order: two
/// sorted sequences of the same products are the same sequence.
pub proof fn lemma_sorted_order_unique(a: Seq<Product>, b: Seq<Product>)
    requires
        sorted_by_name(a),
        sorted_by_name(b),
        a.to_multiset() == b.to_multiset(),
    ensures
        a == b,
    decreases a.len(),
{
    broadcast use vstd::seq_lib::group_to_multiset_ensures;

    assert(a.len() == a.to_multiset().len());
    assert(b.len() == b.to_multiset().len());
    if a.len() == 0 {
        assert(a =~= b);
    } else {
        let x = a.last();
        let y = b.last();
        assert(a.contains(x));
        assert(b.to_multiset().count(x) > 0);
        assert(b.contains(x));
        let k = choose|k: int| 0 <= k < b.len() && b[k] == x;
        assert(b.contains(y));
        assert(a.to_multiset().count(y) > 0);
        assert(a.contains(y));
        let m = choose|m: int| 0 <= m < a.len() && a[m] == y;
        lemma_name_order_total(x.name@, y.name@);
        if k < b.len() - 1 {
            assert(name_before(b[k].name@, b[b.len() - 1].name@));
            if m < a.len() - 1 {
                assert(name_before(a[m].name@, a[a.len() - 1].name@));
            }
        }
        assert(x == y);
        let shorter_a = a.drop_last();
        let shorter_b = b.drop_last();
        assert(a =~= shorter_a.push(x));
        assert(b =~= shorter_b.push(y));
        assert(shorter_a.to_multiset() =~= a.to_multiset().remove(x));
        assert(shorter_b.to_multiset() =~= b.to_multiset().remove(y));
        assert forall|i: int, j: int| 0 <= i < j < shorter_a.len() implies name_before(
            #[trigger] shorter_a[i].name@,
            #[trigger] shorter_a[j].name@,
        ) by {
            assert(shorter_a[i] == a[i] && shorter_a[j] == a[j]);
        }
        assert forall|i: int, j: int| 0 <= i < j < shorter_b.len() implies name_before(
            #[trigger] shorter_b[i].name@,
            #[trigger] shorter_b[j].name@,
        ) by {
            assert(shorter_b[i] == b[i] && shorter_b[j] == b[j]);
        }
        lemma_sorted_order_unique(shorter_a, shorter_b);
        assert(a =~= b);
    }
}

} // verus!
