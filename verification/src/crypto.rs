//! The key tool: the catalogue once it is checked and sorted, what is asked of
//! the signer for a new key, and what a candidate key turns out to be.

use crate::bink::{curves_known, distinct_names, sorted_by_name, Bink, Keys, Product};
use crate::fields::{
    decimal, is_number, lemma_decimal_reads_back, number_value, parse_number, NumberError,
};
use crate::scheme::{scheme_for, spec_scheme_for, Scheme};
use crate::sorting::{find_place, lemma_name_absent, sort_products};
use crate::text::{strip_hyphens, trim, trimmed, without_hyphens};
use crate::verdict::{covers, judge, verdict, Decoded, ProductKey, ProductKeyView};
use std::collections::HashMap;
use vstd::prelude::*;
use vstd::string::*;

verus! {

/// The largest channel id: three decimal digits.
pub const MAX_CHANNEL_ID: u64 = 999;

/// The largest sequence number: six decimal digits.
pub const MAX_SEQUENCE: u64 = 999_999;

/// A field of a key that the caller gives as text.
#[derive(Clone, Copy, Debug, PartialEq, Eq, Structural)]
pub enum Field {
    ChannelId,
    Sequence,
}

/// Why no key can be made or judged.
#[derive(Clone, Copy, Debug, PartialEq, Eq, Structural)]
pub enum KeyError {
    /// The field's text is not a number.
    Parse(Field),
    /// The field's number is too large for the field.
    Range(Field),
    /// The catalogue has no curve of the BINK id asked for.
    NotFound,
    /// The signer gave no key.
    Signer,
}

/// Why a catalogue is refused.
#[derive(Clone, Copy, Debug, PartialEq, Eq, Structural)]
pub enum ConfigError {
    /// A product names a curve that the catalogue does not hold.
    UnknownBink,
    /// Two products have the same name.
    SameNameTwice,
}

/// What the signer is asked for: a key under the curve `bink_id`, laid out as
/// `scheme` says, with these fields. Where `sequence` or `upgrade` is `None`
/// the signer chooses.
#[derive(Clone, Copy, Debug, PartialEq, Eq)]
pub struct KeyRequest {
    pub bink_id: u8,
    pub scheme: Scheme,
    pub channel_id: u32,
    pub sequence: Option<u32>,
    pub upgrade: Option<bool>,
}

/// Provides what is needed to make and to judge product keys.
pub struct KeyTool {
    bink: HashMap<u8, Bink>,
    products: Vec<Product>,
}

/// What `KeyTool::new` makes of a catalogue with these products and curves:
/// an unknown curve is found before a name that stands twice.
pub open spec fn load_error(products: Seq<Product>, curves: Set<u8>) -> Option<ConfigError> {
    if !curves_known(products, curves) {
        Some(ConfigError::UnknownBink)
    } else if !distinct_names(products) {
        Some(ConfigError::SameNameTwice)
    } else {
        None
    }
}

/// What is asked of the signer for the given input, or why nothing is.
///
/// The channel id is looked at first, then the sequence, then the curve. An
/// empty sequence text leaves the sequence to the signer. Keys of the later
/// scheme have no sequence: none is handed on for them.
pub open spec fn spec_gen_key(
    curves: Set<u8>,
    bink_id: u8,
    channel_id: Seq<char>,
    sequence: Seq<char>,
    upgrade: Option<bool>,
) -> Result<KeyRequest, KeyError> {
    if !is_number(channel_id) {
        Err(KeyError::Parse(Field::ChannelId))
    } else if number_value(channel_id) > MAX_CHANNEL_ID {
        Err(KeyError::Range(Field::ChannelId))
    } else if sequence.len() > 0 && !is_number(sequence) {
        Err(KeyError::Parse(Field::Sequence))
    } else if sequence.len() > 0 && number_value(sequence) > MAX_SEQUENCE {
        Err(KeyError::Range(Field::Sequence))
    } else if !curves.contains(bink_id) {
        Err(KeyError::NotFound)
    } else {
        Ok(
            KeyRequest {
                bink_id,
                scheme: spec_scheme_for(bink_id),
                channel_id: number_value(channel_id) as u32,
                sequence: if sequence.len() > 0 && spec_scheme_for(bink_id) == Scheme::Bink1998 {
                    Some(number_value(sequence) as u32)
                } else {
                    None
                },
                upgrade,
            },
        )
    }
}

/// What `gen_key` gives once the fields are checked: the error of the check,
/// or what the signer made of the request.
pub open spec fn signed_or_refused(checked: Result<KeyRequest, KeyError>, signed: Option<String>) -> Result<
    String,
    KeyError,
> {
    match checked {
        Err(e) => Err(e),
        Ok(_) => match signed {
            Some(key) => Ok(key),
            None => Err(KeyError::Signer),
        },
    }
}

/// Whether `outcomes` is what `decode` gave for the text `candidate` under
/// every curve of every product: `outcomes[i][j]` for the `j`-th curve of the
/// `i`-th product, each curve handed over with its id.
pub open spec fn read_by<F: Fn(&Bink, u8, &str) -> Decoded>(
    decode: F,
    curves: Map<u8, Bink>,
    products: Seq<Product>,
    candidate: &str,
    outcomes: Seq<Vec<Decoded>>,
) -> bool {
    &&& covers(products, outcomes)
    &&& forall|i: int, j: int|
        0 <= i < products.len() && 0 <= j < products[i].bink_ids@.len() ==> call_ensures(
            decode,
            (&curves[products[i].bink_ids@[j]], products[i].bink_ids@[j], candidate),
            #[trigger] outcomes[i]@[j],
        )
}

/// Whether every curve that a product names is one of the catalogue's.
pub fn check_curves(products: &Vec<Product>, bink: &HashMap<u8, Bink>) -> (r: bool)
    ensures
        r == curves_known(products@, bink@.dom()),
{
    broadcast use vstd::std_specs::hash::group_hash_axioms;

    let mut i: usize = 0;
    while i < products.len()
        invariant
            i <= products@.len(),
            curves_known(products@.subrange(0, i as int), bink@.dom()),
        decreases products@.len() - i,
    {
        let ids: &Vec<u8> = &products[i].bink_ids;
        let mut j: usize = 0;
        while j < ids.len()
            invariant
                j <= ids@.len(),
                i < products@.len(),
                ids == &products@[i as int].bink_ids,
                forall|k: int| 0 <= k < j ==> bink@.dom().contains(#[trigger] ids@[k]),
            decreases ids@.len() - j,
        {
            if !bink.contains_key(&ids[j]) {
                assert(!bink@.dom().contains(products@[i as int].bink_ids@[j as int]));
                return false;
            }
            j = j + 1;
        }
        proof {
            let longer = products@.subrange(0, i + 1);
            assert forall|a: int, b: int|
                0 <= a < longer.len() && 0 <= b < longer[a].bink_ids@.len() implies bink@.dom().contains(
            #[trigger] longer[a].bink_ids@[b]) by {
                if a < i {
                    assert(longer[a] == products@.subrange(0, i as int)[a]);
                }
            }
        }
        i = i + 1;
    }
    assert(products@.subrange(0, i as int) =~= products@);
    true
}

impl KeyError {
    /// The error in words.
    pub fn message(&self) -> (r: String)
        ensures
            r@ == match *self {
                KeyError::Parse(Field::ChannelId) => "Channel ID is not a number"@,
                KeyError::Parse(Field::Sequence) => "Sequence is not a number"@,
                KeyError::Range(Field::ChannelId) => "Channel ID must be 3 digits or fewer"@,
                KeyError::Range(Field::Sequence) => "Sequence must be 6 digits or fewer"@,
                KeyError::NotFound => "Bink ID not found"@,
                KeyError::Signer => "Key could not be signed"@,
            },
    {
        match self {
            KeyError::Parse(Field::ChannelId) => String::from_str("Channel ID is not a number"),
            KeyError::Parse(Field::Sequence) => String::from_str("Sequence is not a number"),
            KeyError::Range(Field::ChannelId) => String::from_str(
                "Channel ID must be 3 digits or fewer",
            ),
            KeyError::Range(Field::Sequence) => String::from_str(
                "Sequence must be 6 digits or fewer",
            ),
            KeyError::NotFound => String::from_str("Bink ID not found"),
            KeyError::Signer => String::from_str("Key could not be signed"),
        }
    }
}

impl KeyTool {
    /// The products of the catalogue, in the order of their names.
    pub closed spec fn products(&self) -> Seq<Product> {
        self.products@
    }

    /// The curves of the catalogue, by their BINK ids.
    pub closed spec fn curves(&self) -> Map<u8, Bink> {
        self.bink@
    }

    /// What holds of every key tool: its products stand in the order of their
    /// names, no name twice, and every curve they name is in the catalogue.
    #[verifier::type_invariant]
    pub closed spec fn inv(&self) -> bool {
        &&& sorted_by_name(self.products@)
        &&& curves_known(self.products@, self.bink@.dom())
    }

    /// Makes the key tool of a catalogue.
    ///
    /// A catalogue in which a product names a curve that is not there, or in
    /// which two products have the same name, is refused. Else the tool holds
    /// the curves as they are and the products in the order of their names.
    pub fn new(keys: Keys) -> (r: Result<KeyTool, ConfigError>)
        ensures
            match r {
                Ok(tool) => {
                    &&& load_error(keys.products@, keys.bink@.dom()) is None
                    &&& tool.inv()
                    &&& tool.curves() == keys.bink@
                    &&& tool.products().to_multiset() == keys.products@.to_multiset()
                    &&& sorted_by_name(tool.products())
                },
                Err(e) => load_error(keys.products@, keys.bink@.dom()) == Some(e),
            },
    {
        let Keys { products, bink } = keys;
        if !check_curves(&products, &bink) {
            return Err(ConfigError::UnknownBink);
        }
        let ghost given = products@;
        match sort_products(products) {
            None => Err(ConfigError::SameNameTwice),
            Some(sorted) => {
                proof {
                    lemma_curves_known_of_same(given, sorted@, bink@.dom());
                }
                Ok(KeyTool { bink, products: sorted })
            },
        }
    }

    /// The products in the order of their names: that of the code points of
    /// their characters, upper case before lower case.
    pub fn sorted_products(&self) -> (r: &[Product])
        ensures
            r@ == self.products(),
            sorted_by_name(r@),
            distinct_names(r@),
            curves_known(r@, self.curves().dom()),
    {
        proof {
            use_type_invariant(self);
            lemma_sorted_distinct(self.products@);
        }
        self.products.as_slice()
    }

    /// The curve of the BINK id `bink_id`, where the catalogue holds one.
    pub fn curve_params(&self, bink_id: u8) -> (r: Option<&Bink>)
        ensures
            r == if self.curves().contains_key(bink_id) {
                Some(&self.curves()[bink_id])
            } else {
                None
            },
    {
        broadcast use vstd::std_specs::hash::group_hash_axioms;

        self.bink.get(&bink_id)
    }

    /// The product of the name `name`, where the catalogue holds one.
    pub fn find_product(&self, name: &str) -> (r: Option<&Product>)
        ensures
            match r {
                Some(found) => found.name@ == name@ && exists|i: int|
                    0 <= i < self.products().len() && #[trigger] self.products()[i] == *found,
                None => forall|i: int|
                    0 <= i < self.products().len() ==> (#[trigger] self.products()[i]).name@
                        != name@,
            },
    {
        proof {
            use_type_invariant(self);
        }
        let (at, same) = find_place(self.products.as_slice(), name);
        if same {
            assert(self.products()[at as int] == self.products@[at as int]);
            Some(&self.products[at])
        } else {
            proof {
                lemma_name_absent(self.products@, name@, at as int);
            }
            None
        }
    }

    /// Makes a key: checks the fields, and has the signer sign what they ask
    /// for under the curve `bink_id`.
    ///
    /// The channel id must be a number of at most 999. The sequence, where its
    /// text is not empty, must be a number of at most 999999; where it is
    /// empty the signer chooses one. The curve must be in the catalogue. The
    /// checks are made in this order, the first that fails gives the error,
    /// and the signer is called only where none fails: once, with the curve
    /// and the request that `request` gives. Its key is handed back as it is.
    pub fn gen_key<F>(
        &self,
        bink_id: u8,
        channel_id: &str,
        sequence: &str,
        upgrade: bool,
        sign: F,
    ) -> (r: Result<String, KeyError>) where F: Fn(&Bink, KeyRequest) -> Option<String>
        requires
            forall|bink: &Bink, request: KeyRequest| call_requires(sign, (bink, request)),
        ensures
            ({
                let checked = spec_gen_key(
                    self.curves().dom(),
                    bink_id,
                    channel_id@,
                    sequence@,
                    Some(upgrade),
                );
                match checked {
                    Err(e) => r == Err::<String, KeyError>(e),
                    Ok(request) => exists|signed: Option<String>| #[trigger]
                        call_ensures(sign, (&self.curves()[bink_id], request), signed) && r
                            == signed_or_refused(checked, signed),
                }
            }),
    {
        broadcast use vstd::std_specs::hash::group_hash_axioms;

        match self.request(bink_id, channel_id, sequence, Some(upgrade)) {
            Err(e) => Err(e),
            Ok(request) => {
                let bink: &Bink = self.bink.get(&bink_id).unwrap();
                let signed: Option<String> = sign(bink, request);
                assert(call_ensures(sign, (&self.curves()[bink_id], request), signed));
                match signed {
                    Some(key) => Ok(key),
                    None => Err(KeyError::Signer),
                }
            },
        }
    }

    /// Checks the fields of a key to be made and says what to ask of the
    /// signer, as `gen_key` does before it calls the signer. Here the upgrade
    /// flag may be left to the signer too.
    pub fn request(
        &self,
        bink_id: u8,
        channel_id: &str,
        sequence: &str,
        upgrade: Option<bool>,
    ) -> (r: Result<KeyRequest, KeyError>)
        ensures
            r == spec_gen_key(self.curves().dom(), bink_id, channel_id@, sequence@, upgrade),
    {
        broadcast use vstd::std_specs::hash::group_hash_axioms;

        let channel: u32 = match parse_number(channel_id, MAX_CHANNEL_ID) {
            Ok(value) => value as u32,
            Err(NumberError::NotNumeric) => {
                return Err(KeyError::Parse(Field::ChannelId));
            },
            Err(NumberError::TooLarge) => {
                return Err(KeyError::Range(Field::ChannelId));
            },
        };
        let chosen: Option<u32> = if sequence.is_empty() {
            None
        } else {
            match parse_number(sequence, MAX_SEQUENCE) {
                Ok(value) => Some(value as u32),
                Err(NumberError::NotNumeric) => {
                    return Err(KeyError::Parse(Field::Sequence));
                },
                Err(NumberError::TooLarge) => {
                    return Err(KeyError::Range(Field::Sequence));
                },
            }
        };
        if !self.bink.contains_key(&bink_id) {
            return Err(KeyError::NotFound);
        }
        let scheme: Scheme = scheme_for(bink_id);
        let sequence: Option<u32> = match scheme {
            Scheme::Bink1998 => chosen,
            Scheme::Bink2002 => None,
        };
        Ok(KeyRequest { bink_id, scheme, channel_id: channel, sequence, upgrade })
    }

    /// Tries the text `candidate` under every curve of every product, in the
    /// order of the sorted products and of each product's curves.
    pub fn sweep<F>(&self, candidate: &str, decode: &F) -> (outcomes: Vec<Vec<Decoded>>) where
        F: Fn(&Bink, u8, &str) -> Decoded,

        requires
            forall|bink: &Bink, bink_id: u8, text: &str|
                call_requires(*decode, (bink, bink_id, text)),
        ensures
            read_by(*decode, self.curves(), self.products(), candidate, outcomes@),
    {
        broadcast use vstd::std_specs::hash::group_hash_axioms;

        proof {
            use_type_invariant(self);
        }
        let mut outcomes: Vec<Vec<Decoded>> = Vec::new();
        let mut i: usize = 0;
        while i < self.products.len()
            invariant
                i <= self.products@.len(),
                outcomes@.len() == i,
                curves_known(self.products@, self.bink@.dom()),
                forall|bink: &Bink, bink_id: u8, text: &str|
                    call_requires(*decode, (bink, bink_id, text)),
                forall|a: int|
                    0 <= a < i ==> (#[trigger] outcomes@[a])@.len()
                        == self.products@[a].bink_ids@.len(),
                forall|a: int, b: int|
                    0 <= a < i && 0 <= b < self.products@[a].bink_ids@.len() ==> call_ensures(
                        *decode,
                        (
                            &self.bink@[self.products@[a].bink_ids@[b]],
                            self.products@[a].bink_ids@[b],
                            candidate,
                        ),
                        #[trigger] outcomes@[a]@[b],
                    ),
            decreases self.products@.len() - i,
        {
            let ids: &Vec<u8> = &self.products[i].bink_ids;
            let mut row: Vec<Decoded> = Vec::new();
            let mut j: usize = 0;
            while j < ids.len()
                invariant
                    j <= ids@.len(),
                    row@.len() == j,
                    i < self.products@.len(),
                    ids == &self.products@[i as int].bink_ids,
                    curves_known(self.products@, self.bink@.dom()),
                    forall|bink: &Bink, bink_id: u8, text: &str|
                        call_requires(*decode, (bink, bink_id, text)),
                    forall|b: int|
                        0 <= b < j ==> call_ensures(
                            *decode,
                            (&self.bink@[ids@[b]], ids@[b], candidate),
                            #[trigger] row@[b],
                        ),
                decreases ids@.len() - j,
            {
                let bink_id: u8 = ids[j];
                assert(self.bink@.dom().contains(self.products@[i as int].bink_ids@[j as int]));
                let bink: &Bink = self.bink.get(&bink_id).unwrap();
                let decoded: Decoded = decode(bink, bink_id, candidate);
                row.push(decoded);
                j = j + 1;
            }
            outcomes.push(row);
            i = i + 1;
        }
        outcomes
    }

    /// Says what a candidate key is.
    ///
    /// An empty text is no input yet, and nothing is tried. Any other text is
    /// tried, without the white space around it, under every curve of every
    /// product, and the verdict is that on all the outcomes.
    pub fn validate_key<F>(&self, key: &str, decode: F) -> (r: ProductKey) where
        F: Fn(&Bink, u8, &str) -> Decoded,

        requires
            forall|bink: &Bink, bink_id: u8, text: &str|
                call_requires(decode, (bink, bink_id, text)),
        ensures
            key@.len() == 0 ==> r@ == ProductKeyView::Empty,
            key@.len() > 0 ==> exists|candidate: &str, outcomes: Seq<Vec<Decoded>>|
                candidate@ == trimmed(key@) && #[trigger] read_by(
                    decode,
                    self.curves(),
                    self.products(),
                    candidate,
                    outcomes,
                ) && r@ == verdict(self.products(), outcomes),
    {
        if key.is_empty() {
            return ProductKey::Empty;
        }
        let candidate: &str = trim(key);
        let outcomes: Vec<Vec<Decoded>> = self.sweep(candidate, &decode);
        let found: ProductKey = judge(self.products.as_slice(), &outcomes).unwrap();
        assert(read_by(decode, self.curves(), self.products(), candidate, outcomes@));
        found
    }

    /// The confirmation id of an installation id: what the transform makes of
    /// the installation id without its hyphens, be it an id or an error.
    pub fn get_confirmation_id<F, E>(installation_id: &str, transform: F) -> (r: Result<
        String,
        E,
    >) where F: Fn(&str) -> Result<String, E>
        requires
            forall|digits: &str| call_requires(transform, (digits,)),
        ensures
            exists|digits: &str|
                digits@ == without_hyphens(installation_id@) && #[trigger] call_ensures(
                    transform,
                    (digits,),
                    r,
                ),
    {
        let digits: String = strip_hyphens(installation_id);
        transform(digits.as_str())
    }
}

/// Two key tools made of the same products hold them in the same order,
/// in whatever order the products were handed in.
pub proof fn lemma_same_products_same_order(a: KeyTool, b: KeyTool)
    requires
        a.inv(),
        b.inv(),
        a.products().to_multiset() == b.products().to_multiset(),
    ensures
        a.products() == b.products(),
{
    crate::sorting::lemma_sorted_order_unique(a.products(), b.products());
}

/// Fields within their widths, written in decimal, and a curve of the
/// catalogue give a request that carries these fields as they are; the
/// sequence only for the older scheme, which alone has one.
pub proof fn lemma_request_of_valid_fields(
    curves: Set<u8>,
    bink_id: u8,
    channel_id: nat,
    sequence: nat,
    upgrade: Option<bool>,
)
    requires
        curves.contains(bink_id),
        channel_id <= MAX_CHANNEL_ID,
        sequence <= MAX_SEQUENCE,
    ensures
        spec_gen_key(curves, bink_id, decimal(channel_id), decimal(sequence), upgrade) == Ok::<
            KeyRequest,
            KeyError,
        >(
            KeyRequest {
                bink_id,
                scheme: spec_scheme_for(bink_id),
                channel_id: channel_id as u32,
                sequence: if spec_scheme_for(bink_id) == Scheme::Bink1998 {
                    Some(sequence as u32)
                } else {
                    None
                },
                upgrade,
            },
        ),
        spec_gen_key(curves, bink_id, decimal(channel_id), Seq::<char>::empty(), upgrade) == Ok::<
            KeyRequest,
            KeyError,
        >(
            KeyRequest {
                bink_id,
                scheme: spec_scheme_for(bink_id),
                channel_id: channel_id as u32,
                sequence: None,
                upgrade,
            },
        ),
{
    lemma_decimal_reads_back(channel_id);
    lemma_decimal_reads_back(sequence);
}

/// Products in the order of their names have different names.
pub proof fn lemma_sorted_distinct(products: Seq<Product>)
    requires
        sorted_by_name(products),
    ensures
        distinct_names(products),
{
    assert forall|i: int, j: int| 0 <= i < j < products.len() implies #[trigger] products[i].name@
        != #[trigger] products[j].name@ by {
        crate::text::lemma_name_order_total(products[i].name@, products[j].name@);
    }
}

/// Where every curve that the products name is known, so is every curve that
/// the same products in another order name.
pub proof fn lemma_curves_known_of_same(given: Seq<Product>, other: Seq<Product>, curves: Set<u8>)
    requires
        curves_known(given, curves),
        given.to_multiset() == other.to_multiset(),
    ensures
        curves_known(other, curves),
{
    broadcast use vstd::seq_lib::group_to_multiset_ensures;

    assert forall|i: int, j: int|
        0 <= i < other.len() && 0 <= j < other[i].bink_ids@.len() implies curves.contains(
    #[trigger] other[i].bink_ids@[j]) by {
        assert(other.contains(other[i]));
        assert(other.to_multiset().count(other[i]) > 0);
        assert(given.contains(other[i]));
        let k = choose|k: int| 0 <= k < given.len() && given[k] == other[i];
        assert(curves.contains(given[k].bink_ids@[j]));
    }
}

} // verus!
