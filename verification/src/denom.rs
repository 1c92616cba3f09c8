use vstd::prelude::*;
use vstd::string::*;

verus! {

/// A tagged denomination identifier: a native currency name, or the
/// contract address of a token currency.
#[derive(Clone, Debug)]
pub enum SerializableDenom {
    Native(String),
    Cw20(String),
}

impl SerializableDenom {
    /// The display label: the inner identifier behind a `native_` or
    /// `cw20_` tag.
    pub fn label(&self) -> (r: String)
        ensures
            self matches SerializableDenom::Native(d) ==> r@ == "native_"@ + d@,
            self matches SerializableDenom::Cw20(d) ==> r@ == "cw20_"@ + d@,
    {
        match self {
            SerializableDenom::Native(d) => String::from_str("native_").concat(d.as_str()),
            SerializableDenom::Cw20(d) => String::from_str("cw20_").concat(d.as_str()),
        }
    }
}

} // verus!
