use vstd::prelude::*;

use crate::semantic_analysis::method_table::{FormalInfo, ReturnType, Signature};

verus! {

// Builtin classes
pub const OBJECT_ID: usize = 0;
pub const INT_ID: usize = 1;
pub const BOOL_ID: usize = 2;
pub const STRING_ID: usize = 3;
pub const IO_ID: usize = 4;

// Builtin methods
pub const ABORT_ID: usize = 5;
pub const TYPE_NAME_ID: usize = 6;
pub const COPY_ID: usize = 7;
pub const OUT_STRING_ID: usize = 8;
pub const OUT_INT_ID: usize = 9;
pub const IN_STRING_ID: usize = 10;
pub const IN_INT_ID: usize = 11;
pub const LENGTH_ID: usize = 12;
pub const CONCAT_ID: usize = 13;
pub const SUBSTR_ID: usize = 14;

// Method parameters
pub const X_ID: usize = 15;
pub const I_ID: usize = 16;
pub const L_ID: usize = 17;
pub const S_ID: usize = 18;

/// A method that every program has without declaring it.
pub struct BuiltinMethod {
    pub name: usize,
    pub rt: ReturnType,
    /// Each parameter with its type.
    pub params: Vec<(usize, usize)>,
}

impl View for BuiltinMethod {
    type V = (usize, Signature);

    /// The method's name and its signature.
    open spec fn view(&self) -> (usize, Signature) {
        (self.name, (self.params@.map_values(|p: (usize, usize)| FormalInfo { name: p.0, ty: p.1 }), self.rt))
    }
}

/// A class that every program has without declaring it.
pub struct BuiltinClass {
    pub id: usize,
    pub parent: Option<usize>,
    pub methods: Vec<BuiltinMethod>,
}

/// The builtin classes with their parents, in the order in which they
/// are described: Object, IO, Int, String, Bool.
pub open spec fn builtin_hierarchy() -> Seq<(usize, Option<usize>)> {
    seq![
        (OBJECT_ID, None),
        (IO_ID, Some(OBJECT_ID)),
        (INT_ID, Some(OBJECT_ID)),
        (STRING_ID, Some(OBJECT_ID)),
        (BOOL_ID, Some(OBJECT_ID)),
    ]
}

/// The methods of each builtin class, in the order of
/// `builtin_hierarchy`: each method's name and signature.
pub open spec fn builtin_signatures() -> Seq<Seq<(usize, Signature)>> {
    seq![
        seq![
            (ABORT_ID, (Seq::empty(), ReturnType::Type(OBJECT_ID))),
            (TYPE_NAME_ID, (Seq::empty(), ReturnType::Type(STRING_ID))),
            (COPY_ID, (Seq::empty(), ReturnType::SelfType)),
        ],
        seq![
            (OUT_STRING_ID, (seq![FormalInfo { name: X_ID, ty: STRING_ID }], ReturnType::SelfType)),
            (OUT_INT_ID, (seq![FormalInfo { name: X_ID, ty: INT_ID }], ReturnType::SelfType)),
            (IN_STRING_ID, (Seq::empty(), ReturnType::Type(STRING_ID))),
            (IN_INT_ID, (Seq::empty(), ReturnType::Type(INT_ID))),
        ],
        Seq::empty(),
        seq![
            (LENGTH_ID, (Seq::empty(), ReturnType::Type(INT_ID))),
            (CONCAT_ID, (seq![FormalInfo { name: S_ID, ty: STRING_ID }], ReturnType::Type(STRING_ID))),
            (SUBSTR_ID, (seq![FormalInfo { name: I_ID, ty: INT_ID }, FormalInfo { name: L_ID, ty: INT_ID }], ReturnType::Type(STRING_ID))),
        ],
        Seq::empty(),
    ]
}

/// The signatures of a list of builtin methods.
pub open spec fn method_views(ms: Seq<BuiltinMethod>) -> Seq<(usize, Signature)> {
    ms.map_values(|m: BuiltinMethod| m@)
}

fn method0(name: usize, rt: ReturnType) -> (m: BuiltinMethod)
    ensures
        m@ == (name, (Seq::<FormalInfo>::empty(), rt)),
{
    BuiltinMethod { name, rt, params: Vec::new() }
}

fn method1(name: usize, rt: ReturnType, p: (usize, usize)) -> (m: BuiltinMethod)
    ensures
        m@ == (name, (seq![FormalInfo { name: p.0, ty: p.1 }], rt)),
{
    let mut params = Vec::new();
    params.push(p);
    let m = BuiltinMethod { name, rt, params };
    assert(m.params@.map_values(|q: (usize, usize)| FormalInfo { name: q.0, ty: q.1 }) =~= seq![FormalInfo { name: p.0, ty: p.1 }]);
    m
}

/// The builtin classes, their parents and their methods.
pub fn builtin_classes() -> (v: Vec<BuiltinClass>)
    ensures
        v@.len() == builtin_hierarchy().len(),
        forall|i: int|
            0 <= i < v@.len() ==> (#[trigger] v@[i]).id == builtin_hierarchy()[i].0
                && v@[i].parent == builtin_hierarchy()[i].1
                && method_views(v@[i].methods@) == builtin_signatures()[i],
{
    let mut object_methods = Vec::new();
    // Halts program execution with an error message
    object_methods.push(method0(ABORT_ID, ReturnType::Type(OBJECT_ID)));
    // Returns a string with the name of the class of the object
    object_methods.push(method0(TYPE_NAME_ID, ReturnType::Type(STRING_ID)));
    // Produces a shallow copy of the object
    object_methods.push(method0(COPY_ID, ReturnType::SelfType));

    let mut io_methods = Vec::new();
    // print argument, return their self parameter
    io_methods.push(method1(OUT_STRING_ID, ReturnType::SelfType, (X_ID, STRING_ID)));
    io_methods.push(method1(OUT_INT_ID, ReturnType::SelfType, (X_ID, INT_ID)));
    // reads a string from the standard input, up to but not including a newline character
    io_methods.push(method0(IN_STRING_ID, ReturnType::Type(STRING_ID)));
    // reads a single integer, which may be preceded by whitespace
    io_methods.push(method0(IN_INT_ID, ReturnType::Type(INT_ID)));

    let mut string_methods = Vec::new();
    // returns length of self parameter
    string_methods.push(method0(LENGTH_ID, ReturnType::Type(INT_ID)));
    // returns the string formed by concatenating s after self
    string_methods.push(method1(CONCAT_ID, ReturnType::Type(STRING_ID), (S_ID, STRING_ID)));
    // substring of its self parameter beginning at position i with length l;
    // a runtime error is generated if the specified substring is out of range
    let mut substr_params = Vec::new();
    substr_params.push((I_ID, INT_ID));
    substr_params.push((L_ID, INT_ID));
    let substr = BuiltinMethod { name: SUBSTR_ID, rt: ReturnType::Type(STRING_ID), params: substr_params };
    assert(substr@.1.0 =~= seq![FormalInfo { name: I_ID, ty: INT_ID }, FormalInfo { name: L_ID, ty: INT_ID }]);
    string_methods.push(substr);

    let mut v = Vec::new();
    v.push(BuiltinClass { id: OBJECT_ID, parent: None, methods: object_methods });
    v.push(BuiltinClass { id: IO_ID, parent: Some(OBJECT_ID), methods: io_methods });
    // Default initialization for variables of type Int is 0
    v.push(BuiltinClass { id: INT_ID, parent: Some(OBJECT_ID), methods: Vec::new() });
    // Default initialization for variables of type String is ""
    v.push(BuiltinClass { id: STRING_ID, parent: Some(OBJECT_ID), methods: string_methods });
    // Default initialization is false
    v.push(BuiltinClass { id: BOOL_ID, parent: Some(OBJECT_ID), methods: Vec::new() });
    proof {
        let sigs = builtin_signatures();
        assert(method_views(v@[0].methods@) =~= sigs[0]);
        assert(method_views(v@[1].methods@) =~= sigs[1]);
        assert(method_views(v@[2].methods@) =~= sigs[2]);
        assert(method_views(v@[3].methods@) =~= sigs[3]);
        assert(method_views(v@[4].methods@) =~= sigs[4]);
    }
    v
}

} // verus!
