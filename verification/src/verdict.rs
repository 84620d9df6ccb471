//! What a candidate key turns out to be once every curve of every product was
//! tried on it.

use crate::bink::Product;
use crate::fields::{bink_id_numeral, bink_id_text, decimal, decimal_text};
use crate::scheme::{scheme_for, spec_scheme_for, Scheme};
use vstd::prelude::*;
use vstd::string::*;

verus! {

/// The fields of a key of the older scheme, each number in decimal.
#[derive(Debug, PartialEq, Eq)]
pub struct ProductKey1998 {
    pub upgrade: bool,
    pub channel_id: String,
    pub sequence: String,
    pub hash: String,
    pub signature: String,
}

/// The fields of a key of the later scheme, each number in decimal.
#[derive(Debug, PartialEq, Eq)]
pub struct ProductKey2002 {
    pub upgrade: bool,
    pub channel_id: String,
    pub hash: String,
    pub signature: String,
    pub auth_info: String,
}

impl Clone for ProductKey1998 {
    fn clone(&self) -> (r: Self)
        ensures
            r == *self,
    {
        ProductKey1998 {
            upgrade: self.upgrade,
            channel_id: self.channel_id.clone(),
            sequence: self.sequence.clone(),
            hash: self.hash.clone(),
            signature: self.signature.clone(),
        }
    }
}

impl Clone for ProductKey2002 {
    fn clone(&self) -> (r: Self)
        ensures
            r == *self,
    {
        ProductKey2002 {
            upgrade: self.upgrade,
            channel_id: self.channel_id.clone(),
            hash: self.hash.clone(),
            signature: self.signature.clone(),
            auth_info: self.auth_info.clone(),
        }
    }
}

impl ProductKey1998 {
    /// The fields of a key of the older scheme, each number written in
    /// decimal.
    pub fn from_fields(upgrade: bool, channel_id: u32, sequence: u32, hash: u32, signature: u64) -> (r:
        Self)
        ensures
            r.upgrade == upgrade,
            r.channel_id@ == decimal(channel_id as nat),
            r.sequence@ == decimal(sequence as nat),
            r.hash@ == decimal(hash as nat),
            r.signature@ == decimal(signature as nat),
    {
        ProductKey1998 {
            upgrade,
            channel_id: decimal_text(channel_id as u64),
            sequence: decimal_text(sequence as u64),
            hash: decimal_text(hash as u64),
            signature: decimal_text(signature),
        }
    }
}

impl ProductKey2002 {
    /// The fields of a key of the later scheme, each number written in
    /// decimal.
    pub fn from_fields(upgrade: bool, channel_id: u32, hash: u32, signature: u64, auth_info: u32) -> (r:
        Self)
        ensures
            r.upgrade == upgrade,
            r.channel_id@ == decimal(channel_id as nat),
            r.hash@ == decimal(hash as nat),
            r.signature@ == decimal(signature as nat),
            r.auth_info@ == decimal(auth_info as nat),
    {
        ProductKey2002 {
            upgrade,
            channel_id: decimal_text(channel_id as u64),
            hash: decimal_text(hash as u64),
            signature: decimal_text(signature),
            auth_info: decimal_text(auth_info as u64),
        }
    }
}

/// What one attempt to read a candidate key under one curve gave: nothing, or
/// the fields of a key whose signature holds under that curve.
#[derive(Clone, Debug, PartialEq, Eq)]
pub enum Decoded {
    Failed,
    Bink1998(ProductKey1998),
    Bink2002(ProductKey2002),
}

/// A product that a key is good for, with the curve that showed it.
#[derive(Clone, Debug, PartialEq, Eq)]
pub struct BinkMatch {
    pub name: String,
    pub bink_id: u8,
}

impl BinkMatch {
    /// The match as it is shown: the product's name, and in brackets the
    /// word BINK with the curve's id in two hexadecimal digits.
    pub fn label(&self) -> (r: String)
        ensures
            r@ == self.name@ + " (BINK: "@ + bink_id_numeral(self.bink_id) + ")"@,
    {
        let id: String = bink_id_text(self.bink_id);
        self.name.clone().concat(" (BINK: ").concat(id.as_str()).concat(")")
    }
}

/// What a candidate key is: no input yet, a key of one of the two schemes with
/// the products it is good for, or no key at all.
#[derive(Clone, Debug, PartialEq, Eq)]
#[allow(inconsistent_fields)]
pub enum ProductKey {
    Empty,
    Bink1998 { key: ProductKey1998, bink_ids: Vec<BinkMatch> },
    Bink2002 { key: ProductKey2002, bink_ids: Vec<BinkMatch> },
    Invalid,
}

/// A `ProductKey` with its list of products as a sequence.
#[allow(inconsistent_fields)]
pub enum ProductKeyView {
    Empty,
    Bink1998 { key: ProductKey1998, bink_ids: Seq<BinkMatch> },
    Bink2002 { key: ProductKey2002, bink_ids: Seq<BinkMatch> },
    Invalid,
}

impl View for ProductKey {
    type V = ProductKeyView;

    open spec fn view(&self) -> ProductKeyView {
        match *self {
            ProductKey::Empty => ProductKeyView::Empty,
            ProductKey::Bink1998 { key, bink_ids } => ProductKeyView::Bink1998 {
                key,
                bink_ids: bink_ids@,
            },
            ProductKey::Bink2002 { key, bink_ids } => ProductKeyView::Bink2002 {
                key,
                bink_ids: bink_ids@,
            },
            ProductKey::Invalid => ProductKeyView::Invalid,
        }
    }
}

/// Whether the outcomes cover the products: one row for each product, and in
/// it one outcome for each of the product's curves.
pub open spec fn covers(products: Seq<Product>, outcomes: Seq<Vec<Decoded>>) -> bool {
    &&& outcomes.len() == products.len()
    &&& forall|i: int|
        0 <= i < products.len() ==> (#[trigger] outcomes[i])@.len() == products[i].bink_ids@.len()
}

/// Whether the outcome `d` of an attempt under the curve `bink_id` is a key
/// read under that curve's own scheme and, where `only` names a scheme, that
/// scheme is the one named.
pub open spec fn is_hit(bink_id: u8, d: Decoded, only: Option<Scheme>) -> bool {
    &&& match d {
        Decoded::Failed => false,
        Decoded::Bink1998(_) => spec_scheme_for(bink_id) == Scheme::Bink1998,
        Decoded::Bink2002(_) => spec_scheme_for(bink_id) == Scheme::Bink2002,
    }
    &&& match only {
        Some(scheme) => spec_scheme_for(bink_id) == scheme,
        None => true,
    }
}

/// The last of the first `n` curves of a product whose attempt was a hit.
pub open spec fn last_hit(ids: Seq<u8>, row: Seq<Decoded>, only: Option<Scheme>, n: int) -> Option<
    int,
>
    decreases n,
{
    if n <= 0 {
        None
    } else if is_hit(ids[n - 1], row[n - 1], only) {
        Some(n - 1)
    } else {
        last_hit(ids, row, only, n - 1)
    }
}

/// The place, as product and curve, of the last hit under `scheme` among the
/// first `n` products.
pub open spec fn last_place(
    products: Seq<Product>,
    outcomes: Seq<Vec<Decoded>>,
    scheme: Scheme,
    n: int,
) -> Option<(int, int)>
    decreases n,
{
    if n <= 0 {
        None
    } else {
        let ids = products[n - 1].bink_ids@;
        match last_hit(ids, outcomes[n - 1]@, Some(scheme), ids.len() as int) {
            Some(j) => Some((n - 1, j)),
            None => last_place(products, outcomes, scheme, n - 1),
        }
    }
}

/// The products among the first `n` with a hit on one of their curves, in the
/// order of the catalogue, each with the last of its curves that was a hit.
pub open spec fn matches(products: Seq<Product>, outcomes: Seq<Vec<Decoded>>, n: int) -> Seq<
    BinkMatch,
>
    decreases n,
{
    if n <= 0 {
        Seq::empty()
    } else {
        let before = matches(products, outcomes, n - 1);
        let ids = products[n - 1].bink_ids@;
        match last_hit(ids, outcomes[n - 1]@, None, ids.len() as int) {
            Some(j) => before.push(BinkMatch { name: products[n - 1].name, bink_id: ids[j] }),
            None => before,
        }
    }
}

/// What a key is, given the outcome of every attempt.
///
/// A hit under the older scheme decides: the key is of the older scheme, with
/// the fields of the last such hit. Without one, a hit under the later scheme
/// decides in the same way. Without any hit the key is invalid. The products
/// listed are all those with a hit, under whichever scheme.
pub open spec fn verdict(products: Seq<Product>, outcomes: Seq<Vec<Decoded>>) -> ProductKeyView {
    let n = products.len() as int;
    match last_place(products, outcomes, Scheme::Bink1998, n) {
        Some((i, j)) => ProductKeyView::Bink1998 {
            key: outcomes[i]@[j]->Bink1998_0,
            bink_ids: matches(products, outcomes, n),
        },
        None => match last_place(products, outcomes, Scheme::Bink2002, n) {
            Some((i, j)) => ProductKeyView::Bink2002 {
                key: outcomes[i]@[j]->Bink2002_0,
                bink_ids: matches(products, outcomes, n),
            },
            None => ProductKeyView::Invalid,
        },
    }
}

/// Whether the outcome `d` of an attempt under the curve `bink_id` is a key
/// read under that curve's own scheme.
pub fn hit(bink_id: u8, d: &Decoded) -> (r: bool)
    ensures
        r == is_hit(bink_id, *d, None),
{
    match d {
        Decoded::Failed => false,
        Decoded::Bink1998(_) => scheme_for(bink_id) == Scheme::Bink1998,
        Decoded::Bink2002(_) => scheme_for(bink_id) == Scheme::Bink2002,
    }
}

/// Weighs the outcomes of all attempts on one candidate key.
///
/// `outcomes[i][j]` is what the attempt under the `j`-th curve of the `i`-th
/// product gave. Where the outcomes do not cover the products there is no
/// verdict.
pub fn judge(products: &[Product], outcomes: &Vec<Vec<Decoded>>) -> (r: Option<ProductKey>)
    ensures
        r is Some <==> covers(products@, outcomes@),
        r matches Some(key) ==> key@ == verdict(products@, outcomes@),
{
    if outcomes.len() != products.len() {
        return None;
    }
    let mut bink_ids: Vec<BinkMatch> = Vec::new();
    let mut older: Option<(usize, usize)> = None;
    let mut later: Option<(usize, usize)> = None;
    let mut i: usize = 0;
    while i < products.len()
        invariant
            i <= products.len(),
            outcomes.len() == products.len(),
            forall|k: int| 0 <= k < i ==> (#[trigger] outcomes[k])@.len() == products[k].bink_ids@.len(),
            bink_ids@ == matches(products@, outcomes@, i as int),
            same_place(older, last_place(products@, outcomes@, Scheme::Bink1998, i as int)),
            same_place(later, last_place(products@, outcomes@, Scheme::Bink2002, i as int)),
            older matches Some((a, b)) ==> a < i && b < outcomes[a as int]@.len()
                && outcomes[a as int]@[b as int] is Bink1998,
            later matches Some((a, b)) ==> a < i && b < outcomes[a as int]@.len()
                && outcomes[a as int]@[b as int] is Bink2002,
        decreases products.len() - i,
    {
        let product: &Product = &products[i];
        let row: &Vec<Decoded> = &outcomes[i];
        if row.len() != product.bink_ids.len() {
            return None;
        }
        let mut found: Option<u8> = None;
        let mut j: usize = 0;
        let ghost ids = product.bink_ids@;
        let ghost older_at_row = older;
        let ghost later_at_row = later;
        while j < row.len()
            invariant
                j <= row.len(),
                i < products.len(),
                outcomes.len() == products.len(),
                row == &outcomes[i as int],
                product == &products[i as int],
                ids == product.bink_ids@,
                row@.len() == ids.len(),
                found == match last_hit(ids, row@, None, j as int) {
                    Some(k) => Some(ids[k]),
                    None => None,
                },
                same_place(
                    older,
                    match last_hit(ids, row@, Some(Scheme::Bink1998), j as int) {
                        Some(k) => Some((i as int, k)),
                        None => place_of(older_at_row),
                    },
                ),
                same_place(
                    later,
                    match last_hit(ids, row@, Some(Scheme::Bink2002), j as int) {
                        Some(k) => Some((i as int, k)),
                        None => place_of(later_at_row),
                    },
                ),
                older matches Some((a, b)) ==> a <= i && b < outcomes[a as int]@.len()
                    && outcomes[a as int]@[b as int] is Bink1998,
                later matches Some((a, b)) ==> a <= i && b < outcomes[a as int]@.len()
                    && outcomes[a as int]@[b as int] is Bink2002,
            decreases row.len() - j,
        {
            let bink_id: u8 = product.bink_ids[j];
            if hit(bink_id, &row[j]) {
                found = Some(bink_id);
                match scheme_for(bink_id) {
                    Scheme::Bink1998 => {
                        older = Some((i, j));
                    },
                    Scheme::Bink2002 => {
                        later = Some((i, j));
                    },
                }
            }
            j = j + 1;
        }
        if let Some(bink_id) = found {
            bink_ids.push(BinkMatch { name: product.name.clone(), bink_id });
        }
        i = i + 1;
    }
    if let Some((a, b)) = older {
        if let Decoded::Bink1998(key) = &outcomes[a][b] {
            return Some(ProductKey::Bink1998 { key: key.clone(), bink_ids });
        }
    }
    if let Some((a, b)) = later {
        if let Decoded::Bink2002(key) = &outcomes[a][b] {
            return Some(ProductKey::Bink2002 { key: key.clone(), bink_ids });
        }
    }
    Some(ProductKey::Invalid)
}

/// A place kept as two machine numbers, as a place of the model.
pub open spec fn place_of(place: Option<(usize, usize)>) -> Option<(int, int)> {
    match place {
        Some((a, b)) => Some((a as int, b as int)),
        None => None,
    }
}

/// Whether a place kept as two machine numbers is the place `model`.
pub open spec fn same_place(place: Option<(usize, usize)>, model: Option<(int, int)>) -> bool {
    place_of(place) == model
}

/// The product `products[i]` as the verdict lists it: with the last of its
/// curves that was a hit, or not at all where none was.
pub open spec fn entry_of(products: Seq<Product>, outcomes: Seq<Vec<Decoded>>, i: int) -> Option<
    BinkMatch,
> {
    let ids = products[i].bink_ids@;
    match last_hit(ids, outcomes[i]@, None, ids.len() as int) {
        Some(j) => Some(BinkMatch { name: products[i].name, bink_id: ids[j] }),
        None => None,
    }
}

/// Whether any attempt under a curve of the scheme `scheme` was a hit.
pub open spec fn any_hit(products: Seq<Product>, outcomes: Seq<Vec<Decoded>>, scheme: Scheme) -> bool {
    exists|i: int, j: int|
        0 <= i < products.len() && 0 <= j < products[i].bink_ids@.len() && #[trigger] is_hit(
            products[i].bink_ids@[j],
            outcomes[i]@[j],
            Some(scheme),
        )
}

/// `last_hit` finds a hit after which no hit comes, or there is no hit.
pub proof fn lemma_last_hit(ids: Seq<u8>, row: Seq<Decoded>, only: Option<Scheme>, n: int)
    requires
        0 <= n <= ids.len(),
        n <= row.len(),
    ensures
        match last_hit(ids, row, only, n) {
            Some(k) => {
                &&& 0 <= k < n
                &&& is_hit(ids[k], row[k], only)
                &&& forall|m: int| k < m < n ==> !#[trigger] is_hit(ids[m], row[m], only)
            },
            None => forall|m: int| 0 <= m < n ==> !#[trigger] is_hit(ids[m], row[m], only),
        },
    decreases n,
{
    if n > 0 && !is_hit(ids[n - 1], row[n - 1], only) {
        lemma_last_hit(ids, row, only, n - 1);
    }
}

/// `last_place` finds a hit under the scheme after which no such hit comes,
/// or there is no such hit.
pub proof fn lemma_last_place(
    products: Seq<Product>,
    outcomes: Seq<Vec<Decoded>>,
    scheme: Scheme,
    n: int,
)
    requires
        covers(products, outcomes),
        0 <= n <= products.len(),
    ensures
        match last_place(products, outcomes, scheme, n) {
            Some((i, j)) => {
                &&& 0 <= i < n
                &&& 0 <= j < products[i].bink_ids@.len()
                &&& is_hit(products[i].bink_ids@[j], outcomes[i]@[j], Some(scheme))
                &&& forall|a: int, b: int|
                    0 <= a < n && 0 <= b < products[a].bink_ids@.len() && (a > i || (a == i && b
                        > j)) ==> !#[trigger] is_hit(
                        products[a].bink_ids@[b],
                        outcomes[a]@[b],
                        Some(scheme),
                    )
            },
            None => forall|a: int, b: int|
                0 <= a < n && 0 <= b < products[a].bink_ids@.len() ==> !#[trigger] is_hit(
                    products[a].bink_ids@[b],
                    outcomes[a]@[b],
                    Some(scheme),
                ),
        },
    decreases n,
{
    if n > 0 {
        let ids = products[n - 1].bink_ids@;
        let row = outcomes[n - 1]@;
        lemma_last_hit(ids, row, Some(scheme), ids.len() as int);
        if last_hit(ids, row, Some(scheme), ids.len() as int) is None {
            lemma_last_place(products, outcomes, scheme, n - 1);
        }
    }
}

/// The verdict lists exactly the products with a hit, each as `entry_of`
/// gives it.
pub proof fn lemma_matches(products: Seq<Product>, outcomes: Seq<Vec<Decoded>>, n: int)
    requires
        0 <= n <= products.len(),
    ensures
        forall|e: BinkMatch|
            matches(products, outcomes, n).contains(e) <==> exists|i: int|
                0 <= i < n && #[trigger] entry_of(products, outcomes, i) == Some(e),
    decreases n,
{
    let listed = matches(products, outcomes, n);
    if n == 0 {
        assert(listed =~= Seq::<BinkMatch>::empty());
    } else {
        lemma_matches(products, outcomes, n - 1);
        let before = matches(products, outcomes, n - 1);
        assert forall|e: BinkMatch| listed.contains(e) <==> exists|i: int|
            0 <= i < n && #[trigger] entry_of(products, outcomes, i) == Some(e) by {
            if listed.contains(e) {
                let k = choose|k: int| 0 <= k < listed.len() && listed[k] == e;
                if k < before.len() {
                    assert(before[k] == e);
                    assert(before.contains(e));
                    let i = choose|i: int|
                        0 <= i < n - 1 && #[trigger] entry_of(products, outcomes, i) == Some(e);
                    assert(0 <= i < n && entry_of(products, outcomes, i) == Some(e));
                } else {
                    assert(entry_of(products, outcomes, n - 1) == Some(e));
                }
            }
            if exists|i: int| 0 <= i < n && #[trigger] entry_of(products, outcomes, i) == Some(e) {
                let i = choose|i: int|
                    0 <= i < n && #[trigger] entry_of(products, outcomes, i) == Some(e);
                if i < n - 1 {
                    assert(before.contains(e));
                    let k = choose|k: int| 0 <= k < before.len() && before[k] == e;
                    assert(listed[k] == e);
                } else {
                    assert(listed[listed.len() - 1] == e);
                }
            }
        }
    }
}

/// Every product with a hit on one of its curves is listed in the verdict,
/// with the last of its curves that was a hit.
pub proof fn lemma_every_product_listed(
    products: Seq<Product>,
    outcomes: Seq<Vec<Decoded>>,
    i: int,
    j: int,
)
    requires
        covers(products, outcomes),
        0 <= i < products.len(),
        0 <= j < products[i].bink_ids@.len(),
        is_hit(products[i].bink_ids@[j], outcomes[i]@[j], None),
    ensures
        entry_of(products, outcomes, i) is Some,
        entry_of(products, outcomes, i)->0.name == products[i].name,
        matches(products, outcomes, products.len() as int).contains(
            entry_of(products, outcomes, i)->0,
        ),
        ({
            let ids = products[i].bink_ids@;
            let last = last_hit(ids, outcomes[i]@, None, ids.len() as int);
            &&& last is Some
            &&& j <= last->0 < ids.len()
            &&& entry_of(products, outcomes, i)->0.bink_id == ids[last->0]
            &&& is_hit(ids[last->0], outcomes[i]@[last->0], None)
        }),
{
    let ids = products[i].bink_ids@;
    lemma_last_hit(ids, outcomes[i]@, None, ids.len() as int);
    lemma_matches(products, outcomes, products.len() as int);
}

/// A hit under the older scheme decides the verdict, whatever the later
/// scheme gave; the fields are those of the last such hit.
pub proof fn lemma_older_scheme_wins(products: Seq<Product>, outcomes: Seq<Vec<Decoded>>)
    requires
        covers(products, outcomes),
        any_hit(products, outcomes, Scheme::Bink1998),
    ensures
        verdict(products, outcomes) is Bink1998,
        exists|i: int, j: int|
            0 <= i < products.len() && 0 <= j < products[i].bink_ids@.len() && #[trigger] is_hit(
                products[i].bink_ids@[j],
                outcomes[i]@[j],
                Some(Scheme::Bink1998),
            ) && outcomes[i]@[j] == Decoded::Bink1998(verdict(products, outcomes)->Bink1998_key),
{
    lemma_last_place(products, outcomes, Scheme::Bink1998, products.len() as int);
    let place = last_place(products, outcomes, Scheme::Bink1998, products.len() as int);
    let (i, j) = place->0;
    assert(is_hit(products[i].bink_ids@[j], outcomes[i]@[j], Some(Scheme::Bink1998)));
}

/// Without a hit under the older scheme, a hit under the later scheme
/// decides the verdict; the fields are those of the last such hit.
pub proof fn lemma_later_scheme_next(products: Seq<Product>, outcomes: Seq<Vec<Decoded>>)
    requires
        covers(products, outcomes),
        !any_hit(products, outcomes, Scheme::Bink1998),
        any_hit(products, outcomes, Scheme::Bink2002),
    ensures
        verdict(products, outcomes) is Bink2002,
        exists|i: int, j: int|
            0 <= i < products.len() && 0 <= j < products[i].bink_ids@.len() && #[trigger] is_hit(
                products[i].bink_ids@[j],
                outcomes[i]@[j],
                Some(Scheme::Bink2002),
            ) && outcomes[i]@[j] == Decoded::Bink2002(verdict(products, outcomes)->Bink2002_key),
{
    lemma_last_place(products, outcomes, Scheme::Bink1998, products.len() as int);
    lemma_last_place(products, outcomes, Scheme::Bink2002, products.len() as int);
    let place = last_place(products, outcomes, Scheme::Bink2002, products.len() as int);
    let (i, j) = place->0;
    assert(is_hit(products[i].bink_ids@[j], outcomes[i]@[j], Some(Scheme::Bink2002)));
}

/// Without any hit the key is invalid, and only then.
pub proof fn lemma_invalid_without_hit(products: Seq<Product>, outcomes: Seq<Vec<Decoded>>)
    requires
        covers(products, outcomes),
    ensures
        verdict(products, outcomes) is Invalid <==> !any_hit(products, outcomes, Scheme::Bink1998)
            && !any_hit(products, outcomes, Scheme::Bink2002),
        !(verdict(products, outcomes) is Empty),
{
    lemma_last_place(products, outcomes, Scheme::Bink1998, products.len() as int);
    lemma_last_place(products, outcomes, Scheme::Bink2002, products.len() as int);
    let older = last_place(products, outcomes, Scheme::Bink1998, products.len() as int);
    let later = last_place(products, outcomes, Scheme::Bink2002, products.len() as int);
    if older is Some {
        let (i, j) = older->0;
        assert(is_hit(products[i].bink_ids@[j], outcomes[i]@[j], Some(Scheme::Bink1998)));
    }
    if later is Some {
        let (i, j) = later->0;
        assert(is_hit(products[i].bink_ids@[j], outcomes[i]@[j], Some(Scheme::Bink2002)));
    }
}

/// Whether the outcomes are those of a key that reads as `d` under the curve
/// `bink_id` and under no other curve.
pub open spec fn reads_under_one(
    products: Seq<Product>,
    outcomes: Seq<Vec<Decoded>>,
    bink_id: u8,
    d: Decoded,
) -> bool {
    forall|i: int, j: int|
        0 <= i < products.len() && 0 <= j < products[i].bink_ids@.len() ==> #[trigger] outcomes[i]@[j]
            == if products[i].bink_ids@[j] == bink_id {
            d
        } else {
            Decoded::Failed
        }
}

/// A key that reads under one curve alone, as a key of that curve's scheme,
/// is judged to be that key, and the verdict lists every product that names
/// the curve, and no other product.
pub proof fn lemma_key_of_one_curve(
    products: Seq<Product>,
    outcomes: Seq<Vec<Decoded>>,
    bink_id: u8,
    d: Decoded,
)
    requires
        covers(products, outcomes),
        reads_under_one(products, outcomes, bink_id, d),
        is_hit(bink_id, d, None),
    ensures
        forall|i: int|
            0 <= i < products.len() && products[i].bink_ids@.contains(bink_id) ==> matches(
                products,
                outcomes,
                products.len() as int,
            ).contains(BinkMatch { name: #[trigger] products[i].name, bink_id }),
        forall|e: BinkMatch|
            #[trigger] matches(products, outcomes, products.len() as int).contains(e) ==> e.bink_id
                == bink_id && exists|i: int|
                0 <= i < products.len() && (#[trigger] products[i]).name == e.name
                    && products[i].bink_ids@.contains(bink_id),
        (exists|i: int| 0 <= i < products.len() && (#[trigger] products[i]).bink_ids@.contains(bink_id))
            ==> match d {
            Decoded::Bink1998(key) => verdict(products, outcomes) == (ProductKeyView::Bink1998 {
                key,
                bink_ids: matches(products, outcomes, products.len() as int),
            }),
            Decoded::Bink2002(key) => verdict(products, outcomes) == (ProductKeyView::Bink2002 {
                key,
                bink_ids: matches(products, outcomes, products.len() as int),
            }),
            Decoded::Failed => false,
        },
        (forall|i: int| 0 <= i < products.len() ==> !(#[trigger] products[i]).bink_ids@.contains(bink_id))
            ==> verdict(products, outcomes) is Invalid,
{
    let n = products.len() as int;
    let listed = matches(products, outcomes, n);
    lemma_matches(products, outcomes, n);
    assert forall|i: int| 0 <= i < n implies entry_of(products, outcomes, i) == (if (
    #[trigger] products[i]).bink_ids@.contains(bink_id) {
        Some(BinkMatch { name: products[i].name, bink_id })
    } else {
        None
    }) by {
        let ids = products[i].bink_ids@;
        lemma_last_hit(ids, outcomes[i]@, None, ids.len() as int);
        if ids.contains(bink_id) {
            let j = choose|j: int| 0 <= j < ids.len() && ids[j] == bink_id;
            assert(is_hit(ids[j], outcomes[i]@[j], None));
        }
    }
    assert forall|i: int| 0 <= i < n && products[i].bink_ids@.contains(bink_id) implies listed.contains(
        BinkMatch { name: #[trigger] products[i].name, bink_id },
    ) by {
        assert(entry_of(products, outcomes, i) == Some(
            BinkMatch { name: products[i].name, bink_id },
        ));
    }
    assert forall|e: BinkMatch| #[trigger] listed.contains(e) implies e.bink_id == bink_id
        && exists|i: int|
        0 <= i < n && (#[trigger] products[i]).name == e.name && products[i].bink_ids@.contains(
            bink_id,
        ) by {
        let i = choose|i: int| 0 <= i < n && #[trigger] entry_of(products, outcomes, i) == Some(e);
        assert(products[i].name == e.name && products[i].bink_ids@.contains(bink_id));
    }
    lemma_last_place(products, outcomes, Scheme::Bink1998, n);
    lemma_last_place(products, outcomes, Scheme::Bink2002, n);
    if exists|i: int| 0 <= i < n && (#[trigger] products[i]).bink_ids@.contains(bink_id) {
        let i = choose|i: int| 0 <= i < n && (#[trigger] products[i]).bink_ids@.contains(bink_id);
        let ids = products[i].bink_ids@;
        let j = choose|j: int| 0 <= j < ids.len() && ids[j] == bink_id;
        assert(outcomes[i]@[j] == d);
        assert(is_hit(ids[j], outcomes[i]@[j], Some(spec_scheme_for(bink_id))));
    }
}

/// Whether the product `products[i]` names the curve `bink_id`.
pub open spec fn names_curve(products: Seq<Product>, i: int, bink_id: u8) -> bool {
    0 <= i < products.len() && products[i].bink_ids@.contains(bink_id)
}

/// Whether the verdict lists the product `products[i]`.
pub open spec fn lists_product(products: Seq<Product>, outcomes: Seq<Vec<Decoded>>, i: int) -> bool {
    exists|k: int|
        0 <= k < matches(products, outcomes, products.len() as int).len() && (#[trigger] matches(
            products,
            outcomes,
            products.len() as int,
        )[k]).name == products[i].name
}

/// A key of the older scheme that reads as `key` under its own curve, and as
/// nothing else under any curve of that scheme, is judged to be that key, and
/// the verdict lists every product that names its curve.
pub proof fn lemma_round_trip_older(
    products: Seq<Product>,
    outcomes: Seq<Vec<Decoded>>,
    bink_id: u8,
    key: ProductKey1998,
)
    requires
        covers(products, outcomes),
        spec_scheme_for(bink_id) == Scheme::Bink1998,
        exists|i: int| names_curve(products, i, bink_id),
        forall|i: int, j: int|
            0 <= i < products.len() && 0 <= j < products[i].bink_ids@.len() && (
            products[i].bink_ids@[j] == bink_id || is_hit(
                products[i].bink_ids@[j],
                outcomes[i]@[j],
                Some(Scheme::Bink1998),
            )) ==> #[trigger] outcomes[i]@[j] == Decoded::Bink1998(key),
    ensures
        verdict(products, outcomes) is Bink1998,
        verdict(products, outcomes)->Bink1998_key == key,
        forall|i: int| names_curve(products, i, bink_id) ==> lists_product(products, outcomes, i),
{
    let n = products.len() as int;
    let first = choose|i: int| names_curve(products, i, bink_id);
    let at = choose|j: int|
        0 <= j < products[first].bink_ids@.len() && products[first].bink_ids@[j] == bink_id;
    assert(outcomes[first]@[at] == Decoded::Bink1998(key));
    assert(is_hit(products[first].bink_ids@[at], outcomes[first]@[at], Some(Scheme::Bink1998)));
    lemma_last_place(products, outcomes, Scheme::Bink1998, n);
    let place = last_place(products, outcomes, Scheme::Bink1998, n);
    let (a, b) = place->0;
    assert(outcomes[a]@[b] == Decoded::Bink1998(key));
    assert forall|i: int| names_curve(products, i, bink_id) implies lists_product(
        products,
        outcomes,
        i,
    ) by {
        let j = choose|j: int|
            0 <= j < products[i].bink_ids@.len() && products[i].bink_ids@[j] == bink_id;
        assert(outcomes[i]@[j] == Decoded::Bink1998(key));
        lemma_every_product_listed(products, outcomes, i, j);
        let e = entry_of(products, outcomes, i)->0;
        let listed = matches(products, outcomes, n);
        let k = choose|k: int| 0 <= k < listed.len() && listed[k] == e;
        assert(listed[k].name == products[i].name);
    }
}

/// A key of the later scheme that reads as `key` under its own curve, as
/// nothing else under any curve of that scheme, and not at all under the
/// older scheme, is judged to be that key, and the verdict lists every
/// product that names its curve.
pub proof fn lemma_round_trip_later(
    products: Seq<Product>,
    outcomes: Seq<Vec<Decoded>>,
    bink_id: u8,
    key: ProductKey2002,
)
    requires
        covers(products, outcomes),
        spec_scheme_for(bink_id) == Scheme::Bink2002,
        exists|i: int| names_curve(products, i, bink_id),
        !any_hit(products, outcomes, Scheme::Bink1998),
        forall|i: int, j: int|
            0 <= i < products.len() && 0 <= j < products[i].bink_ids@.len() && (
            products[i].bink_ids@[j] == bink_id || is_hit(
                products[i].bink_ids@[j],
                outcomes[i]@[j],
                Some(Scheme::Bink2002),
            )) ==> #[trigger] outcomes[i]@[j] == Decoded::Bink2002(key),
    ensures
        verdict(products, outcomes) is Bink2002,
        verdict(products, outcomes)->Bink2002_key == key,
        forall|i: int| names_curve(products, i, bink_id) ==> lists_product(products, outcomes, i),
{
    let n = products.len() as int;
    let first = choose|i: int| names_curve(products, i, bink_id);
    let at = choose|j: int|
        0 <= j < products[first].bink_ids@.len() && products[first].bink_ids@[j] == bink_id;
    assert(outcomes[first]@[at] == Decoded::Bink2002(key));
    assert(is_hit(products[first].bink_ids@[at], outcomes[first]@[at], Some(Scheme::Bink2002)));
    lemma_last_place(products, outcomes, Scheme::Bink1998, n);
    lemma_last_place(products, outcomes, Scheme::Bink2002, n);
    let older = last_place(products, outcomes, Scheme::Bink1998, n);
    if older is Some {
        let (a, b) = older->0;
        assert(is_hit(products[a].bink_ids@[b], outcomes[a]@[b], Some(Scheme::Bink1998)));
    }
    let place = last_place(products, outcomes, Scheme::Bink2002, n);
    let (a, b) = place->0;
    assert(outcomes[a]@[b] == Decoded::Bink2002(key));
    assert forall|i: int| names_curve(products, i, bink_id) implies lists_product(
        products,
        outcomes,
        i,
    ) by {
        let j = choose|j: int|
            0 <= j < products[i].bink_ids@.len() && products[i].bink_ids@[j] == bink_id;
        assert(outcomes[i]@[j] == Decoded::Bink2002(key));
        lemma_every_product_listed(products, outcomes, i, j);
        let e = entry_of(products, outcomes, i)->0;
        let listed = matches(products, outcomes, n);
        let k = choose|k: int| 0 <= k < listed.len() && listed[k] == e;
        assert(listed[k].name == products[i].name);
    }
}

} // verus!
