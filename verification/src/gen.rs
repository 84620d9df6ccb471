//! The key generator of the first kind: keys with a channel id alone, and
//! verdicts without the state of no input.

use crate::bink::{curves_known, distinct_names, sorted_by_name, Bink, Keys, Product};
use crate::crypto::{
    load_error, read_by, signed_or_refused, spec_gen_key, ConfigError, KeyError, KeyRequest,
    KeyTool,
};
use crate::text::without_hyphens;
use crate::verdict::{judge, verdict, Decoded, ProductKey};
use vstd::prelude::*;

verus! {

/// Provides what is needed to make and to judge product keys, where a key is
/// asked for by its curve and channel id alone.
pub struct KeyGen {
    tool: KeyTool,
}

impl KeyGen {
    /// The key tool that does the work.
    pub closed spec fn tool(&self) -> KeyTool {
        self.tool
    }

    /// Makes the key generator of a catalogue, as `KeyTool::new` makes a key
    /// tool of it.
    pub fn new(keys: Keys) -> (r: Result<KeyGen, ConfigError>)
        ensures
            match r {
                Ok(keygen) => {
                    &&& load_error(keys.products@, keys.bink@.dom()) is None
                    &&& keygen.tool().inv()
                    &&& keygen.tool().curves() == keys.bink@
                    &&& keygen.tool().products().to_multiset() == keys.products@.to_multiset()
                    &&& sorted_by_name(keygen.tool().products())
                },
                Err(e) => load_error(keys.products@, keys.bink@.dom()) == Some(e),
            },
    {
        match KeyTool::new(keys) {
            Ok(tool) => Ok(KeyGen { tool }),
            Err(e) => Err(e),
        }
    }

    /// The products in the order of their names.
    pub fn sorted_products(&self) -> (r: &[Product])
        ensures
            r@ == self.tool().products(),
            sorted_by_name(r@),
            distinct_names(r@),
            curves_known(r@, self.tool().curves().dom()),
    {
        self.tool.sorted_products()
    }

    /// Makes a key: checks the channel id and the curve, and has the signer
    /// sign a key of that channel under that curve. The signer chooses the
    /// sequence and the upgrade flag.
    pub fn gen_key<F>(&self, bink_id: u8, channel_id: &str, sign: F) -> (r: Result<
        String,
        KeyError,
    >) where F: Fn(&Bink, KeyRequest) -> Option<String>
        requires
            forall|bink: &Bink, request: KeyRequest| call_requires(sign, (bink, request)),
        ensures
            ({
                let checked = spec_gen_key(
                    self.tool().curves().dom(),
                    bink_id,
                    channel_id@,
                    Seq::<char>::empty(),
                    None,
                );
                match checked {
                    Err(e) => r == Err::<String, KeyError>(e),
                    Ok(request) => exists|signed: Option<String>| #[trigger]
                        call_ensures(sign, (&self.tool().curves()[bink_id], request), signed) && r
                            == signed_or_refused(checked, signed),
                }
            }),
    {
        proof {
            reveal_strlit("");
            assert(""@ =~= Seq::<char>::empty());
        }
        match self.tool.request(bink_id, channel_id, "", None) {
            Err(e) => Err(e),
            Ok(request) => {
                let bink: &Bink = self.tool.curve_params(bink_id).unwrap();
                let signed: Option<String> = sign(bink, request);
                assert(call_ensures(sign, (&self.tool().curves()[bink_id], request), signed));
                match signed {
                    Some(key) => Ok(key),
                    None => Err(KeyError::Signer),
                }
            },
        }
    }

    /// Says what a candidate key is: the text is tried as it is under every
    /// curve of every product, and the verdict is that on all the outcomes.
    /// An empty text is tried like any other.
    pub fn validate_key<F>(&self, key: &str, decode: F) -> (r: ProductKey) where
        F: Fn(&Bink, u8, &str) -> Decoded,

        requires
            forall|bink: &Bink, bink_id: u8, text: &str|
                call_requires(decode, (bink, bink_id, text)),
        ensures
            exists|outcomes: Seq<Vec<Decoded>>| #[trigger]
                read_by(decode, self.tool().curves(), self.tool().products(), key, outcomes) && r@
                    == verdict(self.tool().products(), outcomes),
    {
        let outcomes: Vec<Vec<Decoded>> = self.tool.sweep(key, &decode);
        let found: ProductKey = judge(self.tool.sorted_products(), &outcomes).unwrap();
        assert(read_by(decode, self.tool().curves(), self.tool().products(), key, outcomes@));
        found
    }

    /// The confirmation id of an installation id: what the transform makes of
    /// the installation id without its hyphens, be it an id or an error.
    pub fn get_confirmation_id<F, E>(installation_id: &str, transform: F) -> (r: Result<
        String,
        E,
    >) where F: Fn(&str) -> Result<String, E>
        requires
            forall|digits: &str| call_requires(transform, (digits,)),
        ensures
            exists|digits: &str|
                digits@ == without_hyphens(installation_id@) && #[trigger] call_ensures(
                    transform,
                    (digits,),
                    r,
                ),
    {
        KeyTool::get_confirmation_id(installation_id, transform)
    }
}

} // verus!
