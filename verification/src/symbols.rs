//! Names recovered from a PDB: which name an address of the image goes by.
use std::collections::BTreeMap;
use vstd::prelude::*;
use vstd::utf8::{
    decode_utf8, encode_utf8, encode_utf8_decode_utf8, encode_utf8_valid_utf8, valid_utf8,
};

verus! {

/// Address -> recovered name, for naming call and data targets in operands. Names prefer
/// the readable form of the module symbols; public (mangled) names stand in only where no
/// module symbol claims the address.
pub struct SymbolMaps {
    pub functions: BTreeMap<usize, String>,
    pub data: BTreeMap<usize, String>,
}

/// A symbol of a module, with the address it maps to, if any, and its raw name.
pub enum SymbolRecord {
    Procedure { rva: Option<u32>, name: Vec<u8> },
    Thunk { rva: Option<u32>, name: Vec<u8> },
    Data { rva: Option<u32>, name: Vec<u8> },
    Other,
}

/// A public symbol, with the address it maps to, if any, and its raw name.
pub struct PublicRecord {
    pub rva: Option<u32>,
    pub function: bool,
    pub name: Vec<u8>,
}

/// What `pdb::RawString::to_string` makes of raw name bytes that are not valid UTF-8.
pub uninterp spec fn repaired_text(bytes: Seq<u8>) -> Seq<char>;

/// The text of raw name bytes.
pub open spec fn lossy_text(bytes: Seq<u8>) -> Seq<char> {
    if valid_utf8(bytes) {
        decode_utf8(bytes)
    } else {
        repaired_text(bytes)
    }
}

/// Decodes raw name bytes with `pdb::RawString::to_string`, which is `String::from_utf8_lossy`:
/// valid UTF-8 is decoded as it is. What stands for invalid bytes is left to the name
/// [`repaired_text`].
#[verifier::external_body]
pub(crate) fn raw_string_text(bytes: &[u8]) -> (r: String)
    ensures
        valid_utf8(bytes@) ==> r@ == decode_utf8(bytes@),
        !valid_utf8(bytes@) ==> r@ == repaired_text(bytes@),
{
    pdb::RawString::from(bytes).to_string().into_owned()
}

/// A map of names, as its model.
pub open spec fn names(m: Map<usize, String>) -> Map<usize, Seq<char>> {
    m.map_values(|s: String| s@)
}

/// `m` with `name` at `rva`, unless the address is named already.
pub open spec fn claimed(m: Map<usize, Seq<char>>, rva: u32, name: Seq<u8>) -> Map<
    usize,
    Seq<char>,
> {
    if m.contains_key(rva as usize) {
        m
    } else {
        m.insert(rva as usize, lossy_text(name))
    }
}

/// The map that a list of addresses and raw names gives: an address keeps the first name
/// that claims it.
pub open spec fn first_names(claims: Seq<(u32, Seq<u8>)>) -> Map<usize, Seq<char>>
    decreases claims.len(),
{
    if claims.len() == 0 {
        Map::empty()
    } else {
        claimed(first_names(claims.drop_last()), claims.last().0, claims.last().1)
    }
}

/// What a symbol claims: an address and a raw name, or nothing where its address maps nowhere.
pub open spec fn claim(rva: Option<u32>, name: Seq<u8>) -> Seq<(u32, Seq<u8>)> {
    match rva {
        Some(rva) => seq![(rva, name)],
        None => seq![],
    }
}

/// What a module symbol claims among the functions.
pub open spec fn function_claim(s: SymbolRecord) -> Seq<(u32, Seq<u8>)> {
    match s {
        SymbolRecord::Procedure { rva, name } => claim(rva, name@),
        SymbolRecord::Thunk { rva, name } => claim(rva, name@),
        _ => seq![],
    }
}

/// What a module symbol claims among the data.
pub open spec fn data_claim(s: SymbolRecord) -> Seq<(u32, Seq<u8>)> {
    match s {
        SymbolRecord::Data { rva, name } => claim(rva, name@),
        _ => seq![],
    }
}

/// What the symbols of a module claim, functions or data.
pub open spec fn symbol_claims(symbols: Seq<SymbolRecord>, functions: bool) -> Seq<(u32, Seq<u8>)>
    decreases symbols.len(),
{
    if symbols.len() == 0 {
        seq![]
    } else {
        symbol_claims(symbols.drop_last(), functions) + if functions {
            function_claim(symbols.last())
        } else {
            data_claim(symbols.last())
        }
    }
}

/// What the symbols of all modules claim, in the order of the modules.
pub open spec fn module_claims(modules: Seq<Vec<SymbolRecord>>, functions: bool) -> Seq<
    (u32, Seq<u8>),
>
    decreases modules.len(),
{
    if modules.len() == 0 {
        seq![]
    } else {
        module_claims(modules.drop_last(), functions) + symbol_claims(modules.last()@, functions)
    }
}

/// What the public symbols claim.
pub open spec fn public_claims(publics: Seq<PublicRecord>, functions: bool) -> Seq<(u32, Seq<u8>)>
    decreases publics.len(),
{
    if publics.len() == 0 {
        seq![]
    } else {
        public_claims(publics.drop_last(), functions) + if publics.last().function == functions {
            claim(publics.last().rva, publics.last().name@)
        } else {
            seq![]
        }
    }
}

/// Everything that claims an address, module symbols before public ones.
pub open spec fn all_claims(
    modules: Seq<Vec<SymbolRecord>>,
    publics: Seq<PublicRecord>,
    functions: bool,
) -> Seq<(u32, Seq<u8>)> {
    module_claims(modules, functions) + public_claims(publics, functions)
}

/// Names the address, unless it maps nowhere or is named already.
fn claim_name(map: &mut BTreeMap<usize, String>, rva: Option<u32>, name: &Vec<u8>)
    ensures
        forall|claims: Seq<(u32, Seq<u8>)>|
            names(old(map)@) == first_names(claims) ==> names(final(map)@) == #[trigger] first_names(
                claims + claim(rva, name@),
            ),
{
    broadcast use vstd::std_specs::btree::group_btree_axioms;

    if let Some(rva) = rva {
        let key: usize = rva as usize;
        if !map.contains_key(&key) {
            let text = raw_string_text(name.as_slice());
            map.insert(key, text);
            assert(names(map@) == claimed(names(old(map)@), rva, name@));
        } else {
            assert(names(map@) == claimed(names(old(map)@), rva, name@));
        }
        assert forall|claims: Seq<(u32, Seq<u8>)>| names(old(map)@) == first_names(claims) implies names(
            map@,
        ) == #[trigger] first_names(claims + claim(Some(rva), name@)) by {
            let all = claims + claim(Some(rva), name@);
            assert(all.drop_last() == claims);
            assert(all.last() == (rva, name@));
        }
    } else {
        assert forall|claims: Seq<(u32, Seq<u8>)>| names(old(map)@) == first_names(claims) implies names(
            map@,
        ) == #[trigger] first_names(claims + claim(None, name@)) by {
            assert(claims + claim(None, name@) == claims);
        }
    }
}

/// Builds the maps of names. A module symbol that claims an address wins over later module
/// symbols and over every public symbol; public symbols fill the gaps.
pub fn build_symbol_maps(modules: &Vec<Vec<SymbolRecord>>, publics: &Vec<PublicRecord>) -> (r:
    SymbolMaps)
    ensures
        names(r.functions@) == first_names(all_claims(modules@, publics@, true)),
        names(r.data@) == first_names(all_claims(modules@, publics@, false)),
{
    let mut functions: BTreeMap<usize, String> = BTreeMap::new();
    let mut data: BTreeMap<usize, String> = BTreeMap::new();
    assert(names(functions@) == first_names(module_claims(modules@.take(0), true)));
    assert(names(data@) == first_names(module_claims(modules@.take(0), false)));
    let mut i: usize = 0;
    while i < modules.len()
        invariant
            i <= modules.len(),
            names(functions@) == first_names(module_claims(modules@.take(i as int), true)),
            names(data@) == first_names(module_claims(modules@.take(i as int), false)),
        decreases modules.len() - i,
    {
        let symbols: &Vec<SymbolRecord> = &modules[i];
        let ghost f0 = module_claims(modules@.take(i as int), true);
        let ghost d0 = module_claims(modules@.take(i as int), false);
        assert(f0 + symbol_claims(symbols@.take(0), true) == f0);
        assert(d0 + symbol_claims(symbols@.take(0), false) == d0);
        let mut j: usize = 0;
        while j < symbols.len()
            invariant
                j <= symbols.len(),
                names(functions@) == first_names(f0 + symbol_claims(symbols@.take(j as int), true)),
                names(data@) == first_names(d0 + symbol_claims(symbols@.take(j as int), false)),
            decreases symbols.len() - j,
        {
            let ghost f1 = f0 + symbol_claims(symbols@.take(j as int), true);
            let ghost d1 = d0 + symbol_claims(symbols@.take(j as int), false);
            let ghost s = symbols@[j as int];
            match &symbols[j] {
                SymbolRecord::Procedure { rva, name } => {
                    claim_name(&mut functions, *rva, name);
                },
                SymbolRecord::Thunk { rva, name } => {
                    claim_name(&mut functions, *rva, name);
                },
                SymbolRecord::Data { rva, name } => {
                    claim_name(&mut data, *rva, name);
                },
                SymbolRecord::Other => {},
            }
            assert(f1 + Seq::<(u32, Seq<u8>)>::empty() == f1);
            assert(d1 + Seq::<(u32, Seq<u8>)>::empty() == d1);
            assert(names(functions@) == first_names(f1 + function_claim(s)));
            assert(names(data@) == first_names(d1 + data_claim(s)));
            j = j + 1;
            let ghost t = symbols@.take(j as int);
            assert(t.drop_last() == symbols@.take(j - 1));
            assert(t.last() == s);
            assert(f1 + function_claim(s) == f0 + symbol_claims(t, true));
            assert(d1 + data_claim(s) == d0 + symbol_claims(t, false));
        }
        assert(symbols@.take(j as int) == symbols@);
        i = i + 1;
        assert(modules@.take(i as int).drop_last() == modules@.take(i - 1));
        assert(modules@.take(i as int).last() == *symbols);
    }
    assert(modules@.take(i as int) == modules@);
    let ghost f2 = module_claims(modules@, true);
    let ghost d2 = module_claims(modules@, false);
    assert(f2 + public_claims(publics@.take(0), true) == f2);
    assert(d2 + public_claims(publics@.take(0), false) == d2);
    let mut k: usize = 0;
    while k < publics.len()
        invariant
            k <= publics.len(),
            names(functions@) == first_names(f2 + public_claims(publics@.take(k as int), true)),
            names(data@) == first_names(d2 + public_claims(publics@.take(k as int), false)),
        decreases publics.len() - k,
    {
        let ghost f3 = f2 + public_claims(publics@.take(k as int), true);
        let ghost d3 = d2 + public_claims(publics@.take(k as int), false);
        let p: &PublicRecord = &publics[k];
        let ghost c = claim(p.rva, p.name@);
        if p.function {
            claim_name(&mut functions, p.rva, &p.name);
        } else {
            claim_name(&mut data, p.rva, &p.name);
        }
        k = k + 1;
        let ghost t = publics@.take(k as int);
        assert(t.drop_last() == publics@.take(k - 1));
        assert(t.last() == *p);
        assert(f3 + c == f2 + (public_claims(t.drop_last(), true) + c));
        assert(d3 + c == d2 + (public_claims(t.drop_last(), false) + c));
        assert(public_claims(t.drop_last(), true) + Seq::<(u32, Seq<u8>)>::empty() == public_claims(
            t.drop_last(),
            true,
        ));
        assert(public_claims(t.drop_last(), false) + Seq::<(u32, Seq<u8>)>::empty()
            == public_claims(t.drop_last(), false));
    }
    assert(publics@.take(k as int) == publics@);
    SymbolMaps { functions, data }
}

/// An address is named exactly where something claims it, and by the first that does.
pub proof fn law_first_claim_wins(claims: Seq<(u32, Seq<u8>)>, i: int)
    requires
        0 <= i < claims.len(),
        forall|j: int| 0 <= j < i ==> claims[j].0 != claims[i].0,
    ensures
        first_names(claims).contains_key(claims[i].0 as usize),
        first_names(claims)[claims[i].0 as usize] == lossy_text(claims[i].1),
    decreases claims.len(),
{
    let d = claims.drop_last();
    if i < d.len() {
        assert forall|j: int| 0 <= j < i implies d[j].0 != d[i].0 by {
            assert(claims[j].0 != claims[i].0);
        }
        law_first_claim_wins(d, i);
        assert(d[i] == claims[i]);
    } else {
        assert forall|j: int| 0 <= j < d.len() implies d[j].0 != claims[i].0 by {
            assert(d[j] == claims[j]);
        }
        law_unclaimed_is_unnamed(d, claims[i].0);
    }
}

/// An address that nothing claims has no name.
pub proof fn law_unclaimed_is_unnamed(claims: Seq<(u32, Seq<u8>)>, rva: u32)
    requires
        forall|j: int| 0 <= j < claims.len() ==> (#[trigger] claims[j]).0 != rva,
    ensures
        !first_names(claims).contains_key(rva as usize),
    decreases claims.len(),
{
    if claims.len() > 0 {
        let d = claims.drop_last();
        assert forall|j: int| 0 <= j < d.len() implies (#[trigger] d[j]).0 != rva by {
            assert(d[j] == claims[j]);
        }
        law_unclaimed_is_unnamed(d, rva);
        assert(claims[claims.len() - 1].0 != rva);
    }
}

proof fn lemma_later_claims(first: Seq<(u32, Seq<u8>)>, later: Seq<(u32, Seq<u8>)>, rva: usize)
    ensures
        first_names(first + later).contains_key(rva) == (first_names(first).contains_key(rva)
            || first_names(later).contains_key(rva)),
        first_names(first).contains_key(rva) ==> first_names(first + later)[rva] == first_names(
            first,
        )[rva],
        !first_names(first).contains_key(rva) ==> first_names(first + later)[rva] == first_names(
            later,
        )[rva] || !first_names(later).contains_key(rva),
    decreases later.len(),
{
    if later.len() == 0 {
        assert(first + later == first);
    } else {
        lemma_later_claims(first, later.drop_last(), rva);
        lemma_later_claims(first, later.drop_last(), later.last().0 as usize);
        assert((first + later).drop_last() == first + later.drop_last());
    }
}

/// What the module symbols name keeps that name whatever the public symbols claim.
pub proof fn law_module_names_win(
    modules: Seq<Vec<SymbolRecord>>,
    publics: Seq<PublicRecord>,
    functions: bool,
    rva: usize,
)
    requires
        first_names(module_claims(modules, functions)).contains_key(rva),
    ensures
        first_names(all_claims(modules, publics, functions)).contains_key(rva),
        first_names(all_claims(modules, publics, functions))[rva] == first_names(
            module_claims(modules, functions),
        )[rva],
{
    lemma_later_claims(module_claims(modules, functions), public_claims(publics, functions), rva);
}

/// What no module symbol names has the name that the public symbols alone would give it.
pub proof fn law_public_names_fill_gaps(
    modules: Seq<Vec<SymbolRecord>>,
    publics: Seq<PublicRecord>,
    functions: bool,
    rva: usize,
)
    requires
        !first_names(module_claims(modules, functions)).contains_key(rva),
    ensures
        first_names(all_claims(modules, publics, functions)).contains_key(rva) == first_names(
            public_claims(publics, functions),
        ).contains_key(rva),
        first_names(public_claims(publics, functions)).contains_key(rva) ==> first_names(
            all_claims(modules, publics, functions),
        )[rva] == first_names(public_claims(publics, functions))[rva],
{
    lemma_later_claims(module_claims(modules, functions), public_claims(publics, functions), rva);
}

/// The raw name that a module symbol has for an address: a procedure or thunk there for a
/// function, a datum there for data.
pub open spec fn name_at(s: SymbolRecord, functions: bool, address: u32) -> Option<Seq<u8>> {
    match s {
        SymbolRecord::Procedure { rva: Some(rva), name } if functions && rva == address => Some(
            name@,
        ),
        SymbolRecord::Thunk { rva: Some(rva), name } if functions && rva == address => Some(name@),
        SymbolRecord::Data { rva: Some(rva), name } if !functions && rva == address => Some(name@),
        _ => None,
    }
}

/// The raw name that a public symbol has for an address.
pub open spec fn public_name_at(p: PublicRecord, functions: bool, address: u32) -> Option<Seq<u8>> {
    if p.function == functions && p.rva == Some(address) {
        Some(p.name@)
    } else {
        None
    }
}

proof fn lemma_single_claim(rva: Option<u32>, name: Seq<u8>, address: u32)
    ensures
        first_names(claim(rva, name)).contains_key(address as usize) == (rva == Some(address)),
        rva == Some(address) ==> first_names(claim(rva, name))[address as usize] == lossy_text(name),
{
    reveal_with_fuel(first_names, 2);
    if let Some(r) = rva {
        let c = claim(rva, name);
        assert(c.drop_last() == Seq::<(u32, Seq<u8>)>::empty());
        assert(c.last() == (r, name));
    }
}

/// The first of the symbols that has a name for the address names it.
proof fn lemma_symbol_names(symbols: Seq<SymbolRecord>, functions: bool, address: u32)
    ensures
        first_names(symbol_claims(symbols, functions)).contains_key(address as usize) <==> exists|
            j: int,
        |
            0 <= j < symbols.len() && name_at(#[trigger] symbols[j], functions, address) is Some,
        forall|j: int|
            0 <= j < symbols.len() && name_at(#[trigger] symbols[j], functions, address) is Some
                && (forall|l: int|
                0 <= l < j ==> name_at(#[trigger] symbols[l], functions, address) is None)
                ==> first_names(symbol_claims(symbols, functions))[address as usize] == lossy_text(
                name_at(symbols[j], functions, address)->0,
            ),
    decreases symbols.len(),
{
    let key = address as usize;
    let all = first_names(symbol_claims(symbols, functions));
    if symbols.len() > 0 {
        let d = symbols.drop_last();
        let n = d.len() as int;
        let s = symbols.last();
        let c = if functions {
            function_claim(s)
        } else {
            data_claim(s)
        };
        let before = first_names(symbol_claims(d, functions));
        lemma_symbol_names(d, functions, address);
        lemma_later_claims(symbol_claims(d, functions), c, key);
        match s {
            SymbolRecord::Procedure { rva, name } => lemma_single_claim(rva, name@, address),
            SymbolRecord::Thunk { rva, name } => lemma_single_claim(rva, name@, address),
            SymbolRecord::Data { rva, name } => lemma_single_claim(rva, name@, address),
            SymbolRecord::Other => {},
        }
        assert(first_names(c).contains_key(key) == name_at(s, functions, address) is Some);
        assert(symbols[n] == s);
        assert(forall|l: int| 0 <= l < n ==> #[trigger] d[l] == symbols[l]);
        if before.contains_key(key) {
            let j = choose|j: int|
                0 <= j < d.len() && name_at(#[trigger] d[j], functions, address) is Some;
            assert(name_at(symbols[j], functions, address) is Some);
        }
        assert forall|j: int|
            0 <= j < symbols.len() && name_at(
                #[trigger] symbols[j],
                functions,
                address,
            ) is Some implies all.contains_key(key) by {
            if j < n {
                assert(name_at(d[j], functions, address) is Some);
            }
        }
        assert forall|j: int|
            0 <= j < symbols.len() && name_at(#[trigger] symbols[j], functions, address) is Some
                && (forall|l: int|
                0 <= l < j ==> name_at(
                    #[trigger] symbols[l],
                    functions,
                    address,
                ) is None) implies all[key] == lossy_text(
            name_at(symbols[j], functions, address)->0,
        ) by {
            if j < n {
                assert(name_at(d[j], functions, address) is Some);
                assert(forall|l: int|
                    0 <= l < j ==> name_at(#[trigger] d[l], functions, address) is None);
            } else {
                assert(!before.contains_key(key));
            }
        }
    }
}

/// No symbol of the first `i` modules has a name for the address.
pub open spec fn unnamed_before(
    modules: Seq<Vec<SymbolRecord>>,
    functions: bool,
    address: u32,
    i: int,
) -> bool {
    forall|m: int, l: int|
        #![trigger modules[m]@[l]]
        0 <= m < i && 0 <= l < modules[m]@.len() ==> name_at(
            modules[m]@[l],
            functions,
            address,
        ) is None
}

proof fn lemma_module_names(
    modules: Seq<Vec<SymbolRecord>>,
    functions: bool,
    address: u32,
    i: int,
    j: int,
)
    requires
        0 <= i < modules.len(),
        0 <= j < modules[i]@.len(),
        name_at(modules[i]@[j], functions, address) is Some,
        unnamed_before(modules, functions, address, i),
        forall|l: int|
            0 <= l < j ==> name_at(#[trigger] modules[i]@[l], functions, address) is None,
    ensures
        first_names(module_claims(modules, functions)).contains_key(address as usize),
        first_names(module_claims(modules, functions))[address as usize] == lossy_text(
            name_at(modules[i]@[j], functions, address)->0,
        ),
    decreases modules.len(),
{
    let d = modules.drop_last();
    let key = address as usize;
    let symbols = modules.last()@;
    lemma_later_claims(module_claims(d, functions), symbol_claims(symbols, functions), key);
    if i < d.len() {
        assert(d[i] == modules[i]);
        assert forall|m: int, l: int|
            #![trigger d[m]@[l]]
            0 <= m < i && 0 <= l < d[m]@.len() implies name_at(
            d[m]@[l],
            functions,
            address,
        ) is None by {
            assert(d[m] == modules[m]);
            assert(name_at(modules[m]@[l], functions, address) is None);
        }
        lemma_module_names(d, functions, address, i, j);
    } else {
        lemma_symbol_names(symbols, functions, address);
        assert(unnamed_before(d, functions, address, d.len() as int)) by {
            assert forall|m: int, l: int|
                #![trigger d[m]@[l]]
                0 <= m < d.len() && 0 <= l < d[m]@.len() implies name_at(
                d[m]@[l],
                functions,
                address,
            ) is None by {
                assert(d[m] == modules[m]);
                assert(name_at(modules[m]@[l], functions, address) is None);
            }
        }
        lemma_unnamed(d, functions, address);
        assert(modules[i] == modules.last());
    }
}

proof fn lemma_unnamed(modules: Seq<Vec<SymbolRecord>>, functions: bool, address: u32)
    requires
        unnamed_before(modules, functions, address, modules.len() as int),
    ensures
        !first_names(module_claims(modules, functions)).contains_key(address as usize),
    decreases modules.len(),
{
    if modules.len() > 0 {
        let d = modules.drop_last();
        let n = d.len() as int;
        let key = address as usize;
        lemma_later_claims(module_claims(d, functions), symbol_claims(modules.last()@, functions), key);
        lemma_symbol_names(modules.last()@, functions, address);
        assert forall|m: int, l: int|
            #![trigger d[m]@[l]]
            0 <= m < n && 0 <= l < d[m]@.len() implies name_at(
            d[m]@[l],
            functions,
            address,
        ) is None by {
            assert(d[m] == modules[m]);
            assert(name_at(modules[m]@[l], functions, address) is None);
        }
        lemma_unnamed(d, functions, address);
        assert forall|l: int| 0 <= l < modules.last()@.len() implies name_at(
            #[trigger] modules.last()@[l],
            functions,
            address,
        ) is None by {
            assert(name_at(modules[n]@[l], functions, address) is None);
        }
    }
}

proof fn lemma_public_names(publics: Seq<PublicRecord>, functions: bool, address: u32)
    ensures
        first_names(public_claims(publics, functions)).contains_key(address as usize) <==> exists|
            k: int,
        |
            0 <= k < publics.len() && public_name_at(
                #[trigger] publics[k],
                functions,
                address,
            ) is Some,
        forall|k: int|
            0 <= k < publics.len() && public_name_at(
                #[trigger] publics[k],
                functions,
                address,
            ) is Some && (forall|l: int|
                0 <= l < k ==> public_name_at(#[trigger] publics[l], functions, address) is None)
                ==> first_names(public_claims(publics, functions))[address as usize] == lossy_text(
                public_name_at(publics[k], functions, address)->0,
            ),
    decreases publics.len(),
{
    let key = address as usize;
    let all = first_names(public_claims(publics, functions));
    if publics.len() > 0 {
        let d = publics.drop_last();
        let n = d.len() as int;
        let p = publics.last();
        let c = if p.function == functions {
            claim(p.rva, p.name@)
        } else {
            seq![]
        };
        let before = first_names(public_claims(d, functions));
        lemma_public_names(d, functions, address);
        lemma_later_claims(public_claims(d, functions), c, key);
        lemma_single_claim(p.rva, p.name@, address);
        assert(first_names(c).contains_key(key) == public_name_at(p, functions, address) is Some);
        assert(publics[n] == p);
        assert(forall|l: int| 0 <= l < n ==> #[trigger] d[l] == publics[l]);
        if before.contains_key(key) {
            let k = choose|k: int|
                0 <= k < d.len() && public_name_at(#[trigger] d[k], functions, address) is Some;
            assert(public_name_at(publics[k], functions, address) is Some);
        }
        assert forall|k: int|
            0 <= k < publics.len() && public_name_at(
                #[trigger] publics[k],
                functions,
                address,
            ) is Some implies all.contains_key(key) by {
            if k < n {
                assert(public_name_at(d[k], functions, address) is Some);
            }
        }
        assert forall|k: int|
            0 <= k < publics.len() && public_name_at(
                #[trigger] publics[k],
                functions,
                address,
            ) is Some && (forall|l: int|
                0 <= l < k ==> public_name_at(
                    #[trigger] publics[l],
                    functions,
                    address,
                ) is None) implies all[key] == lossy_text(
            public_name_at(publics[k], functions, address)->0,
        ) by {
            if k < n {
                assert(public_name_at(d[k], functions, address) is Some);
                assert(forall|l: int|
                    0 <= l < k ==> public_name_at(#[trigger] d[l], functions, address) is None);
            } else {
                assert(!before.contains_key(key));
            }
        }
    }
}

/// Every procedure, thunk and datum of a module that maps to an address names it, whatever
/// other symbols stand around it and whatever the public symbols say: the name is that of the
/// first of them, by module and then by place in the module.
pub proof fn law_first_module_symbol_names(
    modules: Seq<Vec<SymbolRecord>>,
    publics: Seq<PublicRecord>,
    functions: bool,
    address: u32,
    i: int,
    j: int,
)
    requires
        0 <= i < modules.len(),
        0 <= j < modules[i]@.len(),
        name_at(modules[i]@[j], functions, address) is Some,
        unnamed_before(modules, functions, address, i),
        forall|l: int|
            0 <= l < j ==> name_at(#[trigger] modules[i]@[l], functions, address) is None,
    ensures
        first_names(all_claims(modules, publics, functions)).contains_key(address as usize),
        first_names(all_claims(modules, publics, functions))[address as usize] == lossy_text(
            name_at(modules[i]@[j], functions, address)->0,
        ),
{
    lemma_module_names(modules, functions, address, i, j);
    law_module_names_win(modules, publics, functions, address as usize);
}

/// An address that no module symbol names goes by the first public symbol of it.
pub proof fn law_first_public_symbol_names(
    modules: Seq<Vec<SymbolRecord>>,
    publics: Seq<PublicRecord>,
    functions: bool,
    address: u32,
    k: int,
)
    requires
        unnamed_before(modules, functions, address, modules.len() as int),
        0 <= k < publics.len(),
        publics[k].function == functions,
        publics[k].rva == Some(address),
        forall|l: int|
            0 <= l < k ==> !((#[trigger] publics[l]).function == functions && publics[l].rva
                == Some(address)),
    ensures
        first_names(all_claims(modules, publics, functions)).contains_key(address as usize),
        first_names(all_claims(modules, publics, functions))[address as usize] == lossy_text(
            publics[k].name@,
        ),
{
    lemma_unnamed(modules, functions, address);
    lemma_public_names(publics, functions, address);
    law_public_names_fill_gaps(modules, publics, functions, address as usize);
    assert(public_name_at(publics[k], functions, address) == Some(publics[k].name@));
    assert(forall|l: int|
        0 <= l < k ==> public_name_at(#[trigger] publics[l], functions, address) is None);
}

/// Nothing else is named: an address that no symbol maps to has no name, and neither has what
/// is no address of 32 bits.
pub proof fn law_nothing_else_is_named(
    modules: Seq<Vec<SymbolRecord>>,
    publics: Seq<PublicRecord>,
    functions: bool,
    key: usize,
)
    requires
        first_names(all_claims(modules, publics, functions)).contains_key(key),
    ensures
        key <= u32::MAX,
        !unnamed_before(modules, functions, key as u32, modules.len() as int) || exists|k: int|
            0 <= k < publics.len() && (#[trigger] publics[k]).function == functions
                && publics[k].rva == Some(key as u32),
{
    lemma_keys_are_addresses(all_claims(modules, publics, functions), key);
    let address = key as u32;
    assert(address as usize == key);
    if unnamed_before(modules, functions, address, modules.len() as int) {
        lemma_unnamed(modules, functions, address);
        lemma_public_names(publics, functions, address);
        law_public_names_fill_gaps(modules, publics, functions, key);
        let k = choose|k: int|
            0 <= k < publics.len() && public_name_at(
                #[trigger] publics[k],
                functions,
                address,
            ) is Some;
        assert(publics[k].function == functions && publics[k].rva == Some(address));
    }
}

proof fn lemma_keys_are_addresses(claims: Seq<(u32, Seq<u8>)>, key: usize)
    requires
        first_names(claims).contains_key(key),
    ensures
        key <= u32::MAX,
    decreases claims.len(),
{
    if claims.len() > 0 {
        if first_names(claims.drop_last()).contains_key(key) {
            lemma_keys_are_addresses(claims.drop_last(), key);
        }
    }
}

/// Valid UTF-8 is read as what it stands for.
pub proof fn law_valid_names_are_decoded(text: Seq<char>)
    ensures
        lossy_text(encode_utf8(text)) == text,
{
    encode_utf8_valid_utf8(text);
    encode_utf8_decode_utf8(text);
}

} // verus!
