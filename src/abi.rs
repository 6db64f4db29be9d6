use vstd::prelude::*;

verus! {

/// The fixed set of value types a module's functions are described with.
#[derive(Clone, Copy, Debug, PartialEq, Eq, Structural)]
pub enum TypeTag {
    Unit,
    Int,
    Float,
    Bool,
    Function,
    Struct,
}

/// Ordered parameter types and one return type.
#[derive(Debug)]
pub struct FunctionSignature {
    pub params: Vec<TypeTag>,
    pub ret: TypeTag,
}

/// One exported function: its fully-qualified path, native entry address and signature.
#[derive(Debug)]
pub struct FunctionInfo {
    pub path: String,
    pub address: u64,
    pub signature: FunctionSignature,
}

/// The metadata of one module: where it lives, what it exports, which function
/// paths it imports from other modules, and which modules it depends on.
#[derive(Debug)]
pub struct ModuleInfo {
    pub path: String,
    pub functions: Vec<FunctionInfo>,
    pub imports: Vec<String>,
    pub dependencies: Vec<String>,
}

/// Mathematical value of a [`FunctionInfo`].
pub struct FunctionView {
    pub path: Seq<char>,
    pub address: u64,
    pub params: Seq<TypeTag>,
    pub ret: TypeTag,
}

/// Mathematical value of a [`ModuleInfo`].
pub struct ModuleView {
    pub path: Seq<char>,
    pub functions: Seq<FunctionView>,
    pub imports: Seq<Seq<char>>,
    pub dependencies: Seq<Seq<char>>,
}

pub open spec fn strings_view(v: Seq<String>) -> Seq<Seq<char>> {
    v.map_values(|s: String| s@)
}

impl View for FunctionInfo {
    type V = FunctionView;

    open spec fn view(&self) -> FunctionView {
        FunctionView {
            path: self.path@,
            address: self.address,
            params: self.signature.params@,
            ret: self.signature.ret,
        }
    }
}

impl View for ModuleInfo {
    type V = ModuleView;

    open spec fn view(&self) -> ModuleView {
        ModuleView {
            path: self.path@,
            functions: self.functions@.map_values(|f: FunctionInfo| f@),
            imports: strings_view(self.imports@),
            dependencies: strings_view(self.dependencies@),
        }
    }
}

/// Copies a list of type tags.
pub fn copy_tags(v: &Vec<TypeTag>) -> (r: Vec<TypeTag>)
    ensures
        r@ == v@,
{
    let mut r: Vec<TypeTag> = Vec::new();
    let mut i: usize = 0;
    while i < v.len()
        invariant
            i <= v@.len(),
            r@ == v@.subrange(0, i as int),
        decreases v@.len() - i,
    {
        r.push(v[i]);
        i = i + 1;
        assert(r@ =~= v@.subrange(0, i as int));
    }
    assert(r@ =~= v@);
    r
}

/// Copies a list of strings.
pub fn copy_strings(v: &Vec<String>) -> (r: Vec<String>)
    ensures
        strings_view(r@) == strings_view(v@),
{
    let mut r: Vec<String> = Vec::new();
    let mut i: usize = 0;
    while i < v.len()
        invariant
            i <= v@.len(),
            r@.len() == i,
            forall|k: int| 0 <= k < i ==> r@[k]@ == v@[k]@,
        decreases v@.len() - i,
    {
        r.push(v[i].clone());
        i = i + 1;
    }
    assert(strings_view(r@) =~= strings_view(v@));
    r
}

impl FunctionSignature {
    /// An independent copy of this signature.
    pub fn copy(&self) -> (r: FunctionSignature)
        ensures
            r.params@ == self.params@,
            r.ret == self.ret,
    {
        FunctionSignature { params: copy_tags(&self.params), ret: self.ret }
    }
}

impl FunctionInfo {
    /// An independent copy of this descriptor.
    pub fn copy(&self) -> (r: FunctionInfo)
        ensures
            r@ == self@,
    {
        FunctionInfo { path: self.path.clone(), address: self.address, signature: self.signature.copy() }
    }
}

/// Copies a list of function descriptors.
pub fn copy_functions(v: &Vec<FunctionInfo>) -> (r: Vec<FunctionInfo>)
    ensures
        r@.map_values(|f: FunctionInfo| f@) == v@.map_values(|f: FunctionInfo| f@),
{
    let mut r: Vec<FunctionInfo> = Vec::new();
    let mut i: usize = 0;
    while i < v.len()
        invariant
            i <= v@.len(),
            r@.len() == i,
            forall|k: int| 0 <= k < i ==> r@[k]@ == v@[k]@,
        decreases v@.len() - i,
    {
        r.push(v[i].copy());
        i = i + 1;
    }
    assert(r@.map_values(|f: FunctionInfo| f@) =~= v@.map_values(|f: FunctionInfo| f@));
    r
}

impl ModuleInfo {
    /// An independent copy of this module's metadata.
    pub fn copy(&self) -> (r: ModuleInfo)
        ensures
            r@ == self@,
    {
        ModuleInfo {
            path: self.path.clone(),
            functions: copy_functions(&self.functions),
            imports: copy_strings(&self.imports),
            dependencies: copy_strings(&self.dependencies),
        }
    }
}

} // verus!
