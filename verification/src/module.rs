//! In-memory module representation.
use vstd::prelude::*;

verus! {

#[derive(Clone, Debug, Default)]
pub struct Function {
    pub code: Vec<u8>,
    pub max_locals: u16,
    pub frame_size: u32,
    pub consts: Vec<i64>,
    /// String constants for the intern pool.
    pub string_pool: Vec<String>,
    /// Upvalue descriptors: (is_local, index).
    pub upvalues: Vec<(bool, u16)>,
    pub name: String,
}

#[derive(Clone, Debug, Default)]
pub struct Module {
    pub functions: Vec<Function>,
}

/// Mathematical content of a function.
pub struct FnModel {
    pub code: Seq<u8>,
    pub max_locals: u16,
    pub frame_size: u32,
    pub consts: Seq<i64>,
    pub strings: Seq<Seq<char>>,
    pub upvalues: Seq<(bool, u16)>,
    pub name: Seq<char>,
}

impl View for Function {
    type V = FnModel;

    open spec fn view(&self) -> FnModel {
        FnModel {
            code: self.code@,
            max_locals: self.max_locals,
            frame_size: self.frame_size,
            consts: self.consts@,
            strings: strings_view(self.string_pool@),
            upvalues: self.upvalues@,
            name: self.name@,
        }
    }
}

impl View for Module {
    type V = Seq<FnModel>;

    open spec fn view(&self) -> Seq<FnModel> {
        self.functions@.map_values(|f: Function| f@)
    }
}

/// The character sequences of a list of strings.
pub open spec fn strings_view(v: Seq<String>) -> Seq<Seq<char>> {
    v.map_values(|s: String| s@)
}

impl Module {
    pub fn entry(&self) -> (r: Option<&Function>)
        ensures
            self.functions@.len() == 0 ==> r is None,
            self.functions@.len() > 0 ==> r == Some(&self.functions@[0]),
    {
        if self.functions.len() == 0 {
            None
        } else {
            Some(&self.functions[0])
        }
    }

    pub fn get(&self, idx: usize) -> (r: Option<&Function>)
        ensures
            idx >= self.functions@.len() ==> r is None,
            idx < self.functions@.len() ==> r == Some(&self.functions@[idx as int]),
    {
        if idx < self.functions.len() {
            Some(&self.functions[idx])
        } else {
            None
        }
    }

    pub fn func_count(&self) -> (r: usize)
        ensures
            r == self.functions@.len(),
    {
        self.functions.len()
    }
}

impl Function {
    pub fn with_strings(self, strings: Vec<String>) -> (r: Self)
        ensures
            r == (Function { string_pool: strings, ..self }),
    {
        let mut f = self;
        f.string_pool = strings;
        f
    }
}

} // verus!
