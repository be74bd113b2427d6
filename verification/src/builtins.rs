//! The Pine v6 builtins database.
//!
//! The database is a value: whoever loads it hands it to the functions that look
//! things up in it.

use vstd::prelude::*;
use vstd::string::*;

use crate::strings::str_eq;

verus! {

/// A single parameter of a builtin function. `ty` carries Pine type strings such
/// as `"series float"` or `"series int/float"`.
#[derive(Debug, Clone)]
pub struct Param {
    pub name: String,
    pub ty: String,
    pub description: String,
    pub required: bool,
    pub default: Option<String>,
}

/// Behavior flags that drive checks (top-level-only enforcement,
/// variadics, polymorphism).
#[derive(Debug, Clone)]
pub struct FunctionFlags {
    pub top_level_only: bool,
    pub series_returning: bool,
    pub variadic: bool,
    pub min_args: Option<u32>,
    pub max_args: Option<u32>,
    pub polymorphic: Option<String>,
}

impl Default for FunctionFlags {
    fn default() -> (r: Self)
        ensures
            !r.top_level_only,
            !r.series_returning,
            !r.variadic,
            r.min_args is None,
            r.max_args is None,
            r.polymorphic is None,
    {
        FunctionFlags {
            top_level_only: false,
            series_returning: false,
            variadic: false,
            min_args: None,
            max_args: None,
            polymorphic: None,
        }
    }
}

/// A builtin function. `name` is the full, possibly dotted name (e.g.
/// `"ta.sma"`, `"request.security"`); `namespace` is the leading segment when
/// present (`"ta"`, `"request"`).
#[derive(Debug, Clone)]
pub struct BuiltinFunction {
    pub name: String,
    pub namespace: Option<String>,
    pub syntax: String,
    pub description: String,
    pub parameters: Vec<Param>,
    pub returns: String,
    pub flags: Option<FunctionFlags>,
    pub deprecated: Option<String>,
    pub since: Option<String>,
    pub example: Option<String>,
}

/// A builtin variable (e.g. `close`, `bar_index`, `syminfo.tickerid`).
#[derive(Debug, Clone)]
pub struct BuiltinVariable {
    pub name: String,
    pub namespace: Option<String>,
    pub ty: String,
    pub qualifier: String,
    pub description: String,
    pub since: Option<String>,
}

/// A builtin constant (e.g. `color.red`, `plot.style_line`).
#[derive(Debug, Clone)]
pub struct BuiltinConstant {
    pub name: String,
    pub namespace: String,
    pub short_name: String,
    pub ty: String,
    pub description: Option<String>,
}

/// Reserved words, by category.
#[derive(Debug, Clone)]
pub struct Keywords {
    pub all: Vec<String>,
    pub control: Vec<String>,
    pub declaration: Vec<String>,
    pub operator: Vec<String>,
    pub literal: Vec<String>,
    pub type_: Vec<String>,
}

impl Default for Keywords {
    fn default() -> (r: Self)
        ensures
            r.all@.len() == 0,
            r.control@.len() == 0,
            r.declaration@.len() == 0,
            r.operator@.len() == 0,
            r.literal@.len() == 0,
            r.type_@.len() == 0,
    {
        Keywords {
            all: Vec::new(),
            control: Vec::new(),
            declaration: Vec::new(),
            operator: Vec::new(),
            literal: Vec::new(),
            type_: Vec::new(),
        }
    }
}

/// All builtins.
#[derive(Debug, Clone)]
pub struct Builtins {
    pub functions: Vec<BuiltinFunction>,
    pub variables: Vec<BuiltinVariable>,
    pub constants: Vec<BuiltinConstant>,
    pub keywords: Keywords,
}

/// The last of the first `k` names that is `name`.
pub open spec fn last_named(names: Seq<Seq<char>>, name: Seq<char>, k: int) -> Option<int>
    decreases k,
{
    if k <= 0 {
        None
    } else if names[k - 1] == name {
        Some(k - 1)
    } else {
        last_named(names, name, k - 1)
    }
}

impl Builtins {
    pub open spec fn function_names(&self) -> Seq<Seq<char>> {
        self.functions@.map_values(|f: BuiltinFunction| f.name@)
    }

    pub open spec fn variable_names(&self) -> Seq<Seq<char>> {
        self.variables@.map_values(|v: BuiltinVariable| v.name@)
    }

    pub open spec fn constant_names(&self) -> Seq<Seq<char>> {
        self.constants@.map_values(|c: BuiltinConstant| c.name@)
    }

    /// The function of that name; the last one where several have it.
    pub open spec fn function_at(&self, name: Seq<char>) -> Option<int> {
        last_named(self.function_names(), name, self.functions@.len() as int)
    }

    /// The variable of that name; the last one where several have it.
    pub open spec fn variable_at(&self, name: Seq<char>) -> Option<int> {
        last_named(self.variable_names(), name, self.variables@.len() as int)
    }

    /// The constant of that name; the last one where several have it.
    pub open spec fn constant_at(&self, name: Seq<char>) -> Option<int> {
        last_named(self.constant_names(), name, self.constants@.len() as int)
    }

    /// Some builtin has that name.
    pub open spec fn has(&self, name: Seq<char>) -> bool {
        self.function_at(name) is Some || self.variable_at(name) is Some || self.constant_at(name)
            is Some
    }
}

/// A name is found where some entry has it, and what is found has the name.
pub proof fn law_lookup_goes_by_name(names: Seq<Seq<char>>, name: Seq<char>, k: int)
    requires
        0 <= k <= names.len(),
    ensures
        match last_named(names, name, k) {
            Some(i) => 0 <= i < k && names[i] == name && forall|j: int|
                i < j < k ==> #[trigger] names[j] != name,
            None => forall|j: int| 0 <= j < k ==> #[trigger] names[j] != name,
        },
    decreases k,
{
    if k > 0 && names[k - 1] != name {
        law_lookup_goes_by_name(names, name, k - 1);
    }
}

/// No name stands twice.
pub open spec fn distinct(names: Seq<Seq<char>>) -> bool {
    forall|i: int, j: int|
        #![trigger names[i], names[j]]
        0 <= i < j < names.len() ==> names[i] != names[j]
}

/// Where no name stands twice, every entry is found under its own name.
pub proof fn law_every_entry_is_found(names: Seq<Seq<char>>, i: int)
    requires
        distinct(names),
        0 <= i < names.len(),
    ensures
        last_named(names, names[i], names.len() as int) == Some(i),
{
    law_lookup_goes_by_name(names, names[i], names.len() as int);
}

/// A name is a builtin's exactly where some function, variable or constant has it.
pub proof fn law_builtins_go_by_name(db: Builtins, name: Seq<char>)
    ensures
        db.function_at(name) is Some <==> exists|i: int|
            0 <= i < db.functions@.len() && (#[trigger] db.functions@[i]).name@ == name,
        db.variable_at(name) is Some <==> exists|i: int|
            0 <= i < db.variables@.len() && (#[trigger] db.variables@[i]).name@ == name,
        db.constant_at(name) is Some <==> exists|i: int|
            0 <= i < db.constants@.len() && (#[trigger] db.constants@[i]).name@ == name,
        db.function_at(name) matches Some(i) ==> 0 <= i < db.functions@.len()
            && db.functions@[i].name@ == name,
        db.variable_at(name) matches Some(i) ==> 0 <= i < db.variables@.len()
            && db.variables@[i].name@ == name,
        db.constant_at(name) matches Some(i) ==> 0 <= i < db.constants@.len()
            && db.constants@[i].name@ == name,
        db.has(name) <==> db.function_at(name) is Some || db.variable_at(name) is Some
            || db.constant_at(name) is Some,
{
    let f = db.function_names();
    let v = db.variable_names();
    let c = db.constant_names();
    law_lookup_goes_by_name(f, name, f.len() as int);
    law_lookup_goes_by_name(v, name, v.len() as int);
    law_lookup_goes_by_name(c, name, c.len() as int);
    assert(forall|i: int| 0 <= i < f.len() ==> #[trigger] f[i] == db.functions@[i].name@);
    assert(forall|i: int| 0 <= i < v.len() ==> #[trigger] v[i] == db.variables@[i].name@);
    assert(forall|i: int| 0 <= i < c.len() ==> #[trigger] c[i] == db.constants@[i].name@);
    if let Some(i) = db.function_at(name) {
        assert(db.functions@[i].name@ == name);
    } else {
        assert forall|i: int| 0 <= i < db.functions@.len() implies (
        #[trigger] db.functions@[i]).name@ != name by {
            assert(f[i] != name);
        }
    }
    if let Some(i) = db.variable_at(name) {
        assert(db.variables@[i].name@ == name);
    } else {
        assert forall|i: int| 0 <= i < db.variables@.len() implies (
        #[trigger] db.variables@[i]).name@ != name by {
            assert(v[i] != name);
        }
    }
    if let Some(i) = db.constant_at(name) {
        assert(db.constants@[i].name@ == name);
    } else {
        assert forall|i: int| 0 <= i < db.constants@.len() implies (
        #[trigger] db.constants@[i]).name@ != name by {
            assert(c[i] != name);
        }
    }
}

/// Look up a builtin function by full name, e.g. `"ta.sma"`.
pub fn function<'a>(db: &'a Builtins, name: &str) -> (r: Option<&'a BuiltinFunction>)
    ensures
        match db.function_at(name@) {
            Some(i) => r matches Some(f) && *f == db.functions@[i],
            None => r is None,
        },
{
    let ghost names = db.function_names();
    let mut k: usize = db.functions.len();
    while k > 0
        invariant
            k <= db.functions@.len(),
            names == db.function_names(),
            db.function_at(name@) == last_named(names, name@, k as int),
        decreases k,
    {
        proof {
            assert(names[k - 1] == db.functions@[k - 1].name@);
        }
        if str_eq(db.functions[k - 1].name.as_str(), name) {
            return Some(&db.functions[k - 1]);
        }
        k = k - 1;
    }
    None
}

/// Look up a builtin variable by full name, e.g. `"close"` or `"syminfo.tickerid"`.
pub fn variable<'a>(db: &'a Builtins, name: &str) -> (r: Option<&'a BuiltinVariable>)
    ensures
        match db.variable_at(name@) {
            Some(i) => r matches Some(v) && *v == db.variables@[i],
            None => r is None,
        },
{
    let ghost names = db.variable_names();
    let mut k: usize = db.variables.len();
    while k > 0
        invariant
            k <= db.variables@.len(),
            names == db.variable_names(),
            db.variable_at(name@) == last_named(names, name@, k as int),
        decreases k,
    {
        proof {
            assert(names[k - 1] == db.variables@[k - 1].name@);
        }
        if str_eq(db.variables[k - 1].name.as_str(), name) {
            return Some(&db.variables[k - 1]);
        }
        k = k - 1;
    }
    None
}

/// Look up a builtin constant by full name, e.g. `"color.red"`.
pub fn constant<'a>(db: &'a Builtins, name: &str) -> (r: Option<&'a BuiltinConstant>)
    ensures
        match db.constant_at(name@) {
            Some(i) => r matches Some(c) && *c == db.constants@[i],
            None => r is None,
        },
{
    let ghost names = db.constant_names();
    let mut k: usize = db.constants.len();
    while k > 0
        invariant
            k <= db.constants@.len(),
            names == db.constant_names(),
            db.constant_at(name@) == last_named(names, name@, k as int),
        decreases k,
    {
        proof {
            assert(names[k - 1] == db.constants@[k - 1].name@);
        }
        if str_eq(db.constants[k - 1].name.as_str(), name) {
            return Some(&db.constants[k - 1]);
        }
        k = k - 1;
    }
    None
}

/// True if `name` is a Pine reserved word.
pub fn is_keyword(db: &Builtins, name: &str) -> (r: bool)
    ensures
        r == exists|i: int|
            0 <= i < db.keywords.all@.len() && (#[trigger] db.keywords.all@[i])@ == name@,
{
    let mut k: usize = 0;
    while k < db.keywords.all.len()
        invariant
            k <= db.keywords.all@.len(),
            forall|i: int| 0 <= i < k ==> (#[trigger] db.keywords.all@[i])@ != name@,
        decreases db.keywords.all@.len() - k,
    {
        if str_eq(db.keywords.all[k].as_str(), name) {
            return true;
        }
        k = k + 1;
    }
    false
}

/// True if a builtin function, variable or constant has that name.
pub fn is_builtin(db: &Builtins, name: &str) -> (r: bool)
    ensures
        r == db.has(name@),
{
    function(db, name).is_some() || variable(db, name).is_some() || constant(db, name).is_some()
}

}
