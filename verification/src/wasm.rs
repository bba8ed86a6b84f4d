use vstd::prelude::*;
use crate::profile::insert_all;
use crate::profile::viewed_pairs;
use crate::profile::ProfileError;
use crate::profile::Profiler;

verus! {

#[verifier::external_type_specification]
#[verifier::external_body]
pub struct ExWasmModule(parity_wasm::elements::Module);

/// The (function index, name) pairs that the module's debug name
/// section yields, in iteration order of its index map; empty when the
/// module carries no such section. The name table of a fixed module
/// value is a function of that module alone.
pub uninterp spec fn module_names(m: parity_wasm::elements::Module) -> Seq<(u32, Seq<char>)>;

/// Whether the bytes decode as a WebAssembly module.
pub uninterp spec fn wasm_decodes(b: Seq<u8>) -> bool;

/// The module that the bytes decode to, when they decode at all.
/// Decoding a fixed byte string is a function of those bytes alone.
pub uninterp spec fn wasm_module_of(b: Seq<u8>) -> parity_wasm::elements::Module;

/// Whether parsing the module's custom "name" sections succeeds: true
/// unless such a section exists and is malformed.
pub uninterp spec fn name_parse_ok(m: parity_wasm::elements::Module) -> bool;

/// Relies on parity_wasm::elements::Module::from_bytes: decodes a
/// WebAssembly binary, failing exactly on byte strings that do not
/// encode a module (`wasm_decodes`), and otherwise returning the module
/// those bytes denote (`wasm_module_of`).
#[verifier::external_body]
fn module_from_bytes(bytes: &[u8]) -> (r: Result<parity_wasm::elements::Module, ProfileError>)
    ensures
        r is Ok <==> wasm_decodes(bytes@),
        r is Ok ==> r.unwrap() == wasm_module_of(bytes@),
        r is Err ==> r->Err_0 == ProfileError::ModuleDecode,
{
    match parity_wasm::elements::Module::from_bytes(bytes) {
        Ok(m) => Ok(m),
        Err(_) => Err(ProfileError::ModuleDecode),
    }
}

/// Relies on parity_wasm's Module::parse_names, Module::names_section,
/// NameSection::functions and IndexMap::iter: parses the custom "name"
/// section and hands out its function-name map as plain pairs, which
/// `module_names` names. Fails exactly when a name section exists and
/// is malformed (`name_parse_ok`); a module without a name section
/// succeeds and contributes no pairs.
#[verifier::external_body]
fn parse_function_names(m: parity_wasm::elements::Module) -> (r: Result<
    Vec<(u32, String)>,
    ProfileError,
>)
    ensures
        r is Ok <==> name_parse_ok(m),
        r is Ok ==> viewed_pairs(r.unwrap()@) == module_names(m),
        r is Err ==> r->Err_0 == ProfileError::NameSection,
{
    let parsed = match m.parse_names() {
        Ok(p) => p,
        Err(_) => return Err(ProfileError::NameSection),
    };
    let mut out: Vec<(u32, String)> = Vec::new();
    if let Some(section) = parsed.names_section() {
        if let Some(functions) = section.functions() {
            for (index, name) in functions.names().iter() {
                out.push((index, name.to_string()));
            }
        }
    }
    Ok(out)
}

impl Profiler {
    /// Load a decoded WebAssembly module: parse its debug name section,
    /// if any, and register its function names, each overwriting any
    /// earlier name for the same index. The aggregated profile is never
    /// touched. Fails, leaving the state unchanged, exactly when the
    /// name section is malformed; a module without a name section
    /// registers successfully and contributes no names.
    pub fn load_module(&mut self, module: parity_wasm::elements::Module) -> (r: Result<
        (),
        ProfileError,
    >)
        requires
            old(self).wf(),
        ensures
            final(self).wf(),
            final(self).profile@ == old(self).profile@,
            r is Ok <==> name_parse_ok(module),
            match r {
                Ok(_) => final(self).name_map() == insert_all(
                    old(self).name_map(),
                    module_names(module),
                ),
                Err(e) => *final(self) == *old(self) && e == ProfileError::NameSection,
            },
    {
        match parse_function_names(module) {
            Ok(pairs) => {
                self.register_function_names(pairs);
                Ok(())
            },
            Err(e) => Err(e),
        }
    }

    /// Decode a WebAssembly binary and load it as `load_module` does:
    /// the aggregated profile is never touched, and on success the name
    /// map is exactly the old one overwritten by the decoded module's
    /// declared names. Fails, leaving the state unchanged, exactly on
    /// bytes that are not a module (`ModuleDecode`) or whose name
    /// section is malformed (`NameSection`).
    pub fn load_module_from_bytes(&mut self, bytes: &[u8]) -> (r: Result<(), ProfileError>)
        requires
            old(self).wf(),
        ensures
            final(self).wf(),
            final(self).profile@ == old(self).profile@,
            r is Ok <==> wasm_decodes(bytes@) && name_parse_ok(wasm_module_of(bytes@)),
            match r {
                Ok(_) => final(self).name_map() == insert_all(
                    old(self).name_map(),
                    module_names(wasm_module_of(bytes@)),
                ),
                Err(e) => {
                    &&& *final(self) == *old(self)
                    &&& (e == ProfileError::ModuleDecode <==> !wasm_decodes(bytes@))
                    &&& (e == ProfileError::ModuleDecode || e == ProfileError::NameSection)
                },
            },
    {
        match module_from_bytes(bytes) {
            Ok(m) => self.load_module(m),
            Err(e) => Err(e),
        }
    }
}

} // verus!
