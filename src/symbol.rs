use vstd::prelude::*;

verus! {

/// A lowercase hexadecimal digit.
pub open spec fn is_lower_hex_digit(c: char) -> bool {
    ('0' <= c && c <= '9') || ('a' <= c && c <= 'f')
}

/// The fixed text that every generated identifier starts with.
pub open spec fn symbol_prefix() -> Seq<char> {
    seq!['_', 'r', 'a', 'n', 'd', 's', 'y', 'm', '_']
}

/// Thirty-two lowercase hexadecimal digits, as a UUID is written without hyphens.
pub open spec fn is_hex32(s: Seq<char>) -> bool {
    &&& s.len() == 32
    &&& forall|j: int| 0 <= j < 32 ==> is_lower_hex_digit(#[trigger] s[j])
}

/// A generated identifier: the prefix followed by thirty-two lowercase hex digits.
pub open spec fn is_symbol(s: Seq<char>) -> bool {
    &&& s.len() == symbol_prefix().len() + 32
    &&& s.subrange(0, symbol_prefix().len() as int) == symbol_prefix()
    &&& is_hex32(s.subrange(symbol_prefix().len() as int, s.len() as int))
}

/// Relies on `uuid::Uuid::new_v4` for a random UUID and on the `Display` of its
/// `Simple` form, which writes the sixteen bytes as thirty-two lowercase hex digits.
#[verifier::external_body]
fn random_uuid_hex() -> (r: String)
    ensures
        is_hex32(r@),
{
    uuid::Uuid::new_v4().simple().to_string()
}

/// The identifier for the digits `hex`: the prefix followed by `hex`.
pub fn symbol_from_hex(hex: &str) -> (r: String)
    ensures
        r@ == symbol_prefix() + hex@,
        is_hex32(hex@) ==> is_symbol(r@),
{
    let mut s = String::from_str("_randsym_");
    s.append(hex);
    proof {
        reveal_strlit("_randsym_");
        assert(s@ =~= symbol_prefix() + hex@);
        assert(s@.subrange(0, 9) =~= symbol_prefix());
        assert(s@.subrange(9, s@.len() as int) =~= hex@);
    }
    s
}

/// Different digits give different identifiers.
pub proof fn law_symbol_injective(h1: Seq<char>, h2: Seq<char>)
    ensures
        symbol_prefix() + h1 == symbol_prefix() + h2 ==> h1 == h2,
{
    if symbol_prefix() + h1 == symbol_prefix() + h2 {
        let n = symbol_prefix().len() as int;
        assert(h1 =~= (symbol_prefix() + h1).subrange(n, n + h1.len()));
        assert(h2 =~= (symbol_prefix() + h2).subrange(n, n + h2.len()));
    }
}

/// Produces a fresh identifier `_randsym_<uuid>` from a newly drawn UUID,
/// unique with overwhelming probability.
pub fn gen_sym() -> (r: String)
    ensures
        is_symbol(r@),
{
    let hex = random_uuid_hex();
    symbol_from_hex(hex.as_str())
}

/// Where the rewriter takes identifiers from: a list handed out in order,
/// extended by [`gen_sym`] whenever it runs out.
pub struct SymbolSupply {
    syms: Vec<String>,
    used: usize,
}

impl SymbolSupply {
    /// Every identifier this supply has held so far, in order.
    pub closed spec fn symbols(&self) -> Seq<Seq<char>> {
        self.syms@.map_values(|s: String| s@)
    }

    /// How many identifiers have been handed out.
    pub closed spec fn used(&self) -> nat {
        self.used as nat
    }

    /// Only identifiers that the supply holds have been handed out.
    pub open spec fn wf(&self) -> bool {
        self.used() <= self.symbols().len()
    }

    /// A supply that generates every identifier it hands out.
    pub fn new() -> (r: SymbolSupply)
        ensures
            r.wf(),
            r.symbols() == Seq::<Seq<char>>::empty(),
            r.used() == 0,
    {
        let r = SymbolSupply { syms: Vec::new(), used: 0 };
        assert(r.symbols() =~= Seq::<Seq<char>>::empty());
        r
    }

    /// A supply that first hands out `syms`, in order, and then generates.
    pub fn from_symbols(syms: Vec<String>) -> (r: SymbolSupply)
        ensures
            r.wf(),
            r.symbols() == syms@.map_values(|s: String| s@),
            r.used() == 0,
    {
        SymbolSupply { syms, used: 0 }
    }

    /// Hands out the next identifier, generating one if none is left.
    pub fn take(&mut self) -> (s: String)
        requires
            old(self).wf(),
        ensures
            final(self).wf(),
            final(self).used() == old(self).used() + 1,
            old(self).symbols().is_prefix_of(final(self).symbols()),
            old(self).used() < old(self).symbols().len() ==> final(self).symbols() == old(
                self,
            ).symbols(),
            old(self).used() == old(self).symbols().len() ==> final(self).symbols().len() == old(
                self,
            ).symbols().len() + 1,
            s@ == final(self).symbols()[old(self).used() as int],
            forall|j: int|
                old(self).symbols().len() <= j < final(self).symbols().len() ==> is_symbol(
                    #[trigger] final(self).symbols()[j],
                ),
    {
        if self.used < self.syms.len() {
            let s = self.syms[self.used].clone();
            self.used = self.used + 1;
            s
        } else {
            let s = gen_sym();
            self.syms.push(s.clone());
            self.used = self.syms.len();
            proof {
                assert(old(self).symbols() =~= self.symbols().subrange(0, old(self).symbols().len() as int));
            }
            s
        }
    }
}

} // verus!
