//! A `Zome` is a module of app-defined code which can be run by a node.
//! A zome is defined either by Wasm bytecode, named by the hash of that
//! code, or inline, by closures that only a running process holds and that
//! stand here by their unique id.
use vstd::prelude::*;

verus! {

/// The name of a zome within its DNA.
#[derive(Clone, Debug)]
pub struct ZomeName(pub String);

/// The hash of the Wasm bytecode of a zome.
#[derive(Clone, Debug)]
pub struct WasmHash(pub Vec<u8>);

/// A zome defined by Wasm bytecode
#[derive(Clone, Debug)]
pub struct WasmZome {
    /// The WasmHash representing the WASM byte code for this zome.
    pub wasm_hash: WasmHash,
}

impl WasmZome {
    /// Constructor
    pub fn new(wasm_hash: WasmHash) -> (r: Self)
        ensures
            r.wasm_hash == wasm_hash,
    {
        WasmZome { wasm_hash }
    }
}

/// Just the definition of a Zome, without the name included.
#[derive(Clone, Debug)]
pub enum ZomeDef {
    /// A zome defined by Wasm bytecode
    Wasm(WasmZome),
    /// A zome defined by closures, known here by its unique id. It has no
    /// Wasm hash.
    Inline(String),
}

/// Why a zome could not give what was asked of it.
#[derive(Clone, Debug)]
pub enum ZomeError {
    /// The named zome is not a Wasm zome.
    NonWasmZome(ZomeName),
}

impl ZomeDef {
    /// If this is a Wasm zome, return the WasmHash.
    /// If not, return an error with the provided zome name
    pub fn wasm_hash(&self, zome_name: &ZomeName) -> (r: Result<WasmHash, ZomeError>)
        ensures
            self matches ZomeDef::Wasm(w) ==> (r matches Ok(h) && h.0@ == w.wasm_hash.0@),
            self is Inline ==> (r matches Err(ZomeError::NonWasmZome(n)) && n.0@ == zome_name.0@),
    {
        match self {
            ZomeDef::Wasm(w) => {
                let h = w.wasm_hash.0.clone();
                proof {
                    assert(h@ =~= w.wasm_hash.0@);
                }
                Ok(WasmHash(h))
            },
            ZomeDef::Inline(_) => Err(ZomeError::NonWasmZome(ZomeName(zome_name.0.clone()))),
        }
    }

    /// A Wasm zome definition from the hash of its code.
    pub fn from_hash(wasm_hash: WasmHash) -> (r: Self)
        ensures
            r == ZomeDef::Wasm(WasmZome { wasm_hash }),
    {
        ZomeDef::Wasm(WasmZome { wasm_hash })
    }
}

/// A Zome: its definition together with its name.
#[derive(Clone, Debug)]
pub struct Zome {
    name: ZomeName,
    def: ZomeDef,
}

impl Zome {
    pub closed spec fn spec_name(&self) -> ZomeName {
        self.name
    }

    pub closed spec fn spec_def(&self) -> ZomeDef {
        self.def
    }

    /// Constructor
    pub fn new(name: ZomeName, def: ZomeDef) -> (r: Self)
        ensures
            r.spec_name() == name,
            r.spec_def() == def,
    {
        Zome { name, def }
    }

    /// Accessor
    pub fn zome_name(&self) -> (r: &ZomeName)
        ensures
            *r == self.spec_name(),
    {
        &self.name
    }

    /// Accessor
    pub fn zome_def(&self) -> (r: &ZomeDef)
        ensures
            *r == self.spec_def(),
    {
        &self.def
    }

    /// Split into components
    pub fn into_inner(self) -> (r: (ZomeName, ZomeDef))
        ensures
            r == (self.spec_name(), self.spec_def()),
    {
        (self.name, self.def)
    }
}

impl From<(ZomeName, ZomeDef)> for Zome {
    fn from(pair: (ZomeName, ZomeDef)) -> (r: Self) {
        Self::new(pair.0, pair.1)
    }
}

impl vstd::std_specs::convert::FromSpecImpl<(ZomeName, ZomeDef)> for Zome {
    open spec fn obeys_from_spec() -> bool {
        true
    }

    closed spec fn from_spec(pair: (ZomeName, ZomeDef)) -> Self {
        Zome { name: pair.0, def: pair.1 }
    }
}

impl From<Zome> for (ZomeName, ZomeDef) {
    fn from(zome: Zome) -> (r: Self) {
        zome.into_inner()
    }
}

impl vstd::std_specs::convert::FromSpecImpl<Zome> for (ZomeName, ZomeDef) {
    open spec fn obeys_from_spec() -> bool {
        true
    }

    open spec fn from_spec(zome: Zome) -> Self {
        (zome.spec_name(), zome.spec_def())
    }
}

impl From<Zome> for ZomeName {
    fn from(zome: Zome) -> (r: Self) {
        zome.name
    }
}

impl vstd::std_specs::convert::FromSpecImpl<Zome> for ZomeName {
    open spec fn obeys_from_spec() -> bool {
        true
    }

    open spec fn from_spec(zome: Zome) -> Self {
        zome.spec_name()
    }
}

impl From<Zome> for ZomeDef {
    fn from(zome: Zome) -> (r: Self) {
        zome.def
    }
}

impl vstd::std_specs::convert::FromSpecImpl<Zome> for ZomeDef {
    open spec fn obeys_from_spec() -> bool {
        true
    }

    open spec fn from_spec(zome: Zome) -> Self {
        zome.spec_def()
    }
}

} // verus!
